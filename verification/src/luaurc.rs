//! The alias table of a configuration file, the difference between two
//! versions of it, and the record of which file consulted which alias.

use vstd::prelude::*;
use crate::multibimap::MultiBiMap;
use crate::relation::Relation;
use crate::side::lemma_seq_push_contains;
use crate::side::lemma_texts_push;
use crate::side::texts;
use crate::text::lemma_text_less_asymmetric;
use crate::text::lemma_text_less_total;
use crate::text::lemma_text_less_transitive;
use crate::text::str_less;
use crate::text::text_less;

verus! {

/// The key of the `i`-th pair.
pub open spec fn key_of(s: Seq<(String, String)>, i: int) -> Seq<char> {
    s[i].0@
}

/// One of the first `n` pairs has the key `k`.
pub open spec fn has_key_below(s: Seq<(String, String)>, n: int, k: Seq<char>) -> bool {
    exists|i: int| 0 <= i < n && i < s.len() && #[trigger] key_of(s, i) == k
}

pub open spec fn has_key(s: Seq<(String, String)>, k: Seq<char>) -> bool {
    has_key_below(s, s.len() as int, k)
}

/// The value stored under `k`, where `k` is a key.
pub open spec fn value_of(s: Seq<(String, String)>, k: Seq<char>) -> Seq<char> {
    let i = choose|i: int| 0 <= i < s.len() && #[trigger] key_of(s, i) == k;
    s[i].1@
}

/// The keys stand in strictly ascending order.
pub open spec fn keys_ascending(s: Seq<(String, String)>) -> bool {
    forall|i: int, j: int| 0 <= i < j < s.len() ==> text_less(#[trigger] key_of(s, i), #[trigger] key_of(s, j))
}

/// The texts stand in strictly ascending order.
pub open spec fn ascending(t: Seq<Seq<char>>) -> bool {
    forall|i: int, j: int| 0 <= i < j < t.len() ==> text_less(#[trigger] t[i], #[trigger] t[j])
}

/// `k` is a key of exactly one of the two tables, or of both with different
/// values.
pub open spec fn differs_at(a: Map<Seq<char>, Seq<char>>, b: Map<Seq<char>, Seq<char>>, k: Seq<char>) -> bool {
    if a.dom().contains(k) {
        !b.dom().contains(k) || a[k] != b[k]
    } else {
        b.dom().contains(k)
    }
}

/// An ordered table from alias names to the targets they stand for.
#[derive(Debug)]
pub struct Aliases(pub Vec<(String, String)>);

impl View for Aliases {
    type V = Map<Seq<char>, Seq<char>>;

    open spec fn view(&self) -> Map<Seq<char>, Seq<char>> {
        Map::new(|k: Seq<char>| has_key(self.0@, k), |k: Seq<char>| value_of(self.0@, k))
    }
}

pub proof fn lemma_key_position(s: Seq<(String, String)>, i: int)
    requires
        keys_ascending(s),
        0 <= i < s.len(),
    ensures
        has_key(s, key_of(s, i)),
        value_of(s, key_of(s, i)) == s[i].1@,
        forall|j: int| 0 <= j < s.len() && key_of(s, j) == key_of(s, i) ==> j == i,
{
    let k = key_of(s, i);
    assert forall|j: int| 0 <= j < s.len() && key_of(s, j) == k implies j == i by {
        if j < i {
            lemma_text_less_asymmetric(key_of(s, j), key_of(s, i));
        } else if i < j {
            lemma_text_less_asymmetric(key_of(s, i), key_of(s, j));
        }
    }
    let c = choose|c: int| 0 <= c < s.len() && #[trigger] key_of(s, c) == k;
    assert(c == i);
}

impl Aliases {
    pub open spec fn wf(&self) -> bool {
        keys_ascending(self.0@)
    }

    /// A table without entries.
    pub fn empty() -> (t: Self)
        ensures
            t.wf(),
            t@ == Map::<Seq<char>, Seq<char>>::empty(),
    {
        let t = Aliases(Vec::new());
        proof {
            assert(t@ =~= Map::<Seq<char>, Seq<char>>::empty());
        }
        t
    }

    /// The keys on which `self` and `b` differ, each once, in ascending
    /// order: the keys of one table alone, and the keys that the tables map
    /// to different values.
    pub fn diff(&self, b: &Aliases) -> (out: Vec<String>)
        requires
            self.wf(),
            b.wf(),
        ensures
            ascending(texts(out@)),
            texts(out@).no_duplicates(),
            forall|k: Seq<char>| #[trigger] texts(out@).contains(k) <==> differs_at(self@, b@, k),
            self@ == b@ ==> out@.len() == 0,
    {
        let mut out: Vec<String> = Vec::new();
        let mut i: usize = 0;
        let mut j: usize = 0;
        let n = self.0.len();
        let m = b.0.len();
        proof {
            assert(texts(out@) =~= Seq::<Seq<char>>::empty());
        }
        while i < n || j < m
            invariant
                n == self.0@.len(),
                m == b.0@.len(),
                merged(self.0@, b.0@, i as int, j as int, texts(out@)),
            decreases (n - i) + (m - j),
        {
            let ghost outs = texts(out@);
            let ghost prev = out@;
            if i < n && j < m {
                if self.0[i].0 == b.0[j].0 {
                    proof {
                        lemma_merge_both(self.0@, b.0@, i as int, j as int, outs);
                    }
                    if !(self.0[i].1 == b.0[j].1) {
                        out.push(self.0[i].0.clone());
                        proof {
                            lemma_texts_push(prev, self.0@[i as int].0);
                        }
                    }
                    i += 1;
                    j += 1;
                } else if str_less(&self.0[i].0, &b.0[j].0) {
                    proof {
                        lemma_merge_left(self.0@, b.0@, i as int, j as int, outs);
                    }
                    out.push(self.0[i].0.clone());
                    proof {
                        lemma_texts_push(prev, self.0@[i as int].0);
                    }
                    i += 1;
                } else {
                    proof {
                        lemma_text_less_total(key_of(self.0@, i as int), key_of(b.0@, j as int));
                        lemma_merge_right(self.0@, b.0@, i as int, j as int, outs);
                    }
                    out.push(b.0[j].0.clone());
                    proof {
                        lemma_texts_push(prev, b.0@[j as int].0);
                    }
                    j += 1;
                }
            } else if i < n {
                proof {
                    lemma_merge_left(self.0@, b.0@, i as int, j as int, outs);
                }
                out.push(self.0[i].0.clone());
                proof {
                    lemma_texts_push(prev, self.0@[i as int].0);
                }
                i += 1;
            } else {
                proof {
                    lemma_merge_right(self.0@, b.0@, i as int, j as int, outs);
                }
                out.push(b.0[j].0.clone());
                proof {
                    lemma_texts_push(prev, b.0@[j as int].0);
                }
                j += 1;
            }
        }
        proof {
            let outs = texts(out@);
            assert forall|k: Seq<char>| #[trigger] outs.contains(k) <==> differs_at(self@, b@, k) by {
                assert(has_key(self.0@, k) == has_key_below(self.0@, n as int, k));
                assert(has_key(b.0@, k) == has_key_below(b.0@, m as int, k));
            }
            if self@ == b@ && out@.len() > 0 {
                assert(outs.contains(outs[0]));
            }
            lemma_ascending_no_duplicates(outs);
        }
        out
    }

    /// Sets the target of the alias `key`.
    pub fn insert(&mut self, key: String, value: String)
        requires
            old(self).wf(),
        ensures
            final(self).wf(),
            final(self)@ == old(self)@.insert(key@, value@),
    {
        let mut p: usize = 0;
        while p < self.0.len() && str_less(&self.0[p].0, &key)
            invariant
                0 <= p <= self.0.len(),
                forall|q: int| 0 <= q < p ==> text_less(#[trigger] key_of(self.0@, q), key@),
            decreases self.0.len() - p,
        {
            p += 1;
        }
        let ghost before = self.0@;
        if p < self.0.len() && self.0[p].0 == key {
            proof {
                lemma_table_update(before, p as int, (key, value));
            }
            self.0.set(p, (key, value));
        } else {
            proof {
                if p < before.len() {
                    lemma_text_less_total(key_of(before, p as int), key@);
                }
                lemma_table_insert(before, p as int, (key, value));
            }
            self.0.insert(p, (key, value));
        }
    }

    /// The table read from the pairs of a configuration, in their order: a
    /// later pair replaces an earlier one with the same key.
    pub fn new(pairs: Vec<(String, String)>) -> (t: Self)
        ensures
            t.wf(),
            t@ == collected(pairs@, pairs@.len() as int),
    {
        let mut t = Aliases::empty();
        let mut i: usize = 0;
        while i < pairs.len()
            invariant
                0 <= i <= pairs.len(),
                t.wf(),
                t@ == collected(pairs@, i as int),
            decreases pairs.len() - i,
        {
            t.insert(pairs[i].0.clone(), pairs[i].1.clone());
            i += 1;
        }
        t
    }

    /// The target of the alias `key`, where the table has it.
    pub fn get(&self, key: &String) -> (r: Option<&String>)
        requires
            self.wf(),
        ensures
            r is Some == self@.dom().contains(key@),
            r matches Some(v) ==> v@ == self@[key@],
    {
        let mut p: usize = 0;
        while p < self.0.len()
            invariant
                self.wf(),
                0 <= p <= self.0.len(),
                forall|q: int| 0 <= q < p ==> #[trigger] key_of(self.0@, q) != key@,
            decreases self.0.len() - p,
        {
            if self.0[p].0 == *key {
                proof {
                    lemma_key_position(self.0@, p as int);
                }
                return Some(&self.0[p].1);
            }
            p += 1;
        }
        proof {
            if has_key(self.0@, key@) {
                let c = choose|c: int|
                    0 <= c < self.0@.len() && c < self.0@.len() && #[trigger] key_of(self.0@, c) == key@;
            }
        }
        None
    }

    /// The table of a configuration file from what reading it gave: its
    /// pairs, or nothing where the file could not be read as a table. A file
    /// that could not be read gives the empty table.
    pub fn from_parsed(parsed: Option<Vec<(String, String)>>) -> (t: Self)
        ensures
            t.wf(),
            t@ == match parsed {
                Some(pairs) => collected(pairs@, pairs@.len() as int),
                None => Map::<Seq<char>, Seq<char>>::empty(),
            },
    {
        match parsed {
            Some(pairs) => Aliases::new(pairs),
            None => Aliases::empty(),
        }
    }
}

/// The table that a list of pairs with distinct keys stands for.
pub open spec fn table(s: Seq<(String, String)>) -> Map<Seq<char>, Seq<char>> {
    Map::new(|k: Seq<char>| has_key(s, k), |k: Seq<char>| value_of(s, k))
}

/// `x` sorts before the first pair of each table that is still to be read.
pub open spec fn below_fronts(
    a: Seq<(String, String)>,
    b: Seq<(String, String)>,
    i: int,
    j: int,
    x: Seq<char>,
) -> bool {
    &&& i < a.len() ==> text_less(x, key_of(a, i))
    &&& j < b.len() ==> text_less(x, key_of(b, j))
}

/// What holds while two tables are read side by side, with `i` pairs of `a`
/// and `j` pairs of `b` behind and `outs` written: `outs` holds, in ascending
/// order, the keys among those read on which the tables differ.
pub open spec fn merged(
    a: Seq<(String, String)>,
    b: Seq<(String, String)>,
    i: int,
    j: int,
    outs: Seq<Seq<char>>,
) -> bool {
    &&& 0 <= i <= a.len()
    &&& 0 <= j <= b.len()
    &&& keys_ascending(a)
    &&& keys_ascending(b)
    &&& ascending(outs)
    &&& forall|t: int| 0 <= t < outs.len() ==> below_fronts(a, b, i, j, #[trigger] outs[t])
    &&& forall|p: int| 0 <= p < i && j < b.len() ==> text_less(#[trigger] key_of(a, p), key_of(b, j))
    &&& forall|q: int| 0 <= q < j && i < a.len() ==> text_less(#[trigger] key_of(b, q), key_of(a, i))
    &&& forall|k: Seq<char>| #[trigger]
        outs.contains(k) <==> differs_at(table(a), table(b), k) && (has_key_below(a, i, k)
            || has_key_below(b, j, k))
}

proof fn lemma_below_grows(s: Seq<(String, String)>, i: int)
    requires
        0 <= i < s.len(),
    ensures
        forall|k: Seq<char>| #[trigger]
            has_key_below(s, i + 1, k) <==> has_key_below(s, i, k) || k == key_of(s, i),
{
    assert forall|k: Seq<char>| #[trigger]
        has_key_below(s, i + 1, k) <==> has_key_below(s, i, k) || k == key_of(s, i) by {
        if has_key_below(s, i + 1, k) {
            let c = choose|c: int| 0 <= c < i + 1 && c < s.len() && #[trigger] key_of(s, c) == k;
            if c < i {
                assert(has_key_below(s, i, k));
            }
        }
        if has_key_below(s, i, k) {
            let c = choose|c: int| 0 <= c < i && c < s.len() && #[trigger] key_of(s, c) == k;
            assert(key_of(s, c) == k);
        }
        if k == key_of(s, i) {
            assert(key_of(s, i) == k);
        }
    }
}

proof fn lemma_push_contains(outs: Seq<Seq<char>>, x: Seq<char>)
    ensures
        forall|k: Seq<char>| #[trigger] outs.push(x).contains(k) <==> outs.contains(k) || k == x,
{
    assert forall|k: Seq<char>| #[trigger] outs.push(x).contains(k) <==> outs.contains(k) || k == x by {
        lemma_seq_push_contains(outs, x, k);
    }
}

/// A key that sorts after everything read of `s` and before everything left
/// of it is no key of `s`.
proof fn lemma_key_absent(s: Seq<(String, String)>, j: int, x: Seq<char>)
    requires
        keys_ascending(s),
        0 <= j <= s.len(),
        forall|q: int| 0 <= q < j ==> text_less(#[trigger] key_of(s, q), x),
        j < s.len() ==> text_less(x, key_of(s, j)),
    ensures
        !has_key(s, x),
{
    if has_key(s, x) {
        let c = choose|c: int| 0 <= c < s.len() && c < s.len() && #[trigger] key_of(s, c) == x;
        if c < j {
            lemma_text_less_asymmetric(key_of(s, c), x);
        } else if c == j {
            lemma_text_less_asymmetric(x, key_of(s, j));
        } else {
            lemma_text_less_transitive(x, key_of(s, j), key_of(s, c));
            lemma_text_less_asymmetric(x, key_of(s, c));
        }
    }
}

/// Reading a pair of `a` whose key `b` lacks: the key is written.
proof fn lemma_merge_left(
    a: Seq<(String, String)>,
    b: Seq<(String, String)>,
    i: int,
    j: int,
    outs: Seq<Seq<char>>,
)
    requires
        merged(a, b, i, j, outs),
        i < a.len(),
        j < b.len() ==> text_less(key_of(a, i), key_of(b, j)),
    ensures
        merged(a, b, i + 1, j, outs.push(key_of(a, i))),
{
    let x = key_of(a, i);
    let o = outs.push(x);
    lemma_key_position(a, i);
    lemma_key_absent(b, j, x);
    lemma_below_grows(a, i);
    lemma_push_contains(outs, x);
    assert forall|t: int| 0 <= t < o.len() implies below_fronts(a, b, i + 1, j, #[trigger] o[t]) by {
        if t < outs.len() {
            assert(below_fronts(a, b, i, j, outs[t]));
            if i + 1 < a.len() {
                lemma_text_less_transitive(outs[t], x, key_of(a, i + 1));
            }
        }
    }
    assert forall|u: int, v: int| 0 <= u < v < o.len() implies text_less(#[trigger] o[u], #[trigger] o[v]) by {
        if v == outs.len() {
            assert(below_fronts(a, b, i, j, outs[u]));
        }
    }
    assert forall|q: int| 0 <= q < j && i + 1 < a.len() implies text_less(
        #[trigger] key_of(b, q),
        key_of(a, i + 1),
    ) by {
        lemma_text_less_transitive(key_of(b, q), x, key_of(a, i + 1));
    }
}

/// Reading a pair of `b` whose key `a` lacks: the key is written.
proof fn lemma_merge_right(
    a: Seq<(String, String)>,
    b: Seq<(String, String)>,
    i: int,
    j: int,
    outs: Seq<Seq<char>>,
)
    requires
        merged(a, b, i, j, outs),
        j < b.len(),
        i < a.len() ==> text_less(key_of(b, j), key_of(a, i)),
    ensures
        merged(a, b, i, j + 1, outs.push(key_of(b, j))),
{
    let x = key_of(b, j);
    let o = outs.push(x);
    lemma_key_position(b, j);
    lemma_key_absent(a, i, x);
    lemma_below_grows(b, j);
    lemma_push_contains(outs, x);
    assert forall|t: int| 0 <= t < o.len() implies below_fronts(a, b, i, j + 1, #[trigger] o[t]) by {
        if t < outs.len() {
            assert(below_fronts(a, b, i, j, outs[t]));
            if j + 1 < b.len() {
                lemma_text_less_transitive(outs[t], x, key_of(b, j + 1));
            }
        }
    }
    assert forall|u: int, v: int| 0 <= u < v < o.len() implies text_less(#[trigger] o[u], #[trigger] o[v]) by {
        if v == outs.len() {
            assert(below_fronts(a, b, i, j, outs[u]));
        }
    }
    assert forall|p: int| 0 <= p < i && j + 1 < b.len() implies text_less(
        #[trigger] key_of(a, p),
        key_of(b, j + 1),
    ) by {
        lemma_text_less_transitive(key_of(a, p), x, key_of(b, j + 1));
    }
}

/// Reading a pair of each table under one key: the key is written where
/// the values differ.
proof fn lemma_merge_both(
    a: Seq<(String, String)>,
    b: Seq<(String, String)>,
    i: int,
    j: int,
    outs: Seq<Seq<char>>,
)
    requires
        merged(a, b, i, j, outs),
        i < a.len(),
        j < b.len(),
        key_of(a, i) == key_of(b, j),
    ensures
        merged(a, b, i + 1, j + 1, if a[i].1@ != b[j].1@ {
            outs.push(key_of(a, i))
        } else {
            outs
        }),
{
    let x = key_of(a, i);
    let o = if a[i].1@ != b[j].1@ { outs.push(x) } else { outs };
    lemma_key_position(a, i);
    lemma_key_position(b, j);
    lemma_below_grows(a, i);
    lemma_below_grows(b, j);
    lemma_push_contains(outs, x);
    assert(!outs.contains(x)) by {
        if outs.contains(x) {
            let c = choose|c: int| 0 <= c < outs.len() && outs[c] == x;
            assert(below_fronts(a, b, i, j, outs[c]));
        }
    }
    assert forall|t: int| 0 <= t < o.len() implies below_fronts(a, b, i + 1, j + 1, #[trigger] o[t]) by {
        if t < outs.len() {
            assert(below_fronts(a, b, i, j, outs[t]));
            if i + 1 < a.len() {
                lemma_text_less_transitive(outs[t], x, key_of(a, i + 1));
            }
            if j + 1 < b.len() {
                lemma_text_less_transitive(outs[t], x, key_of(b, j + 1));
            }
        }
    }
    assert forall|u: int, v: int| 0 <= u < v < o.len() implies text_less(#[trigger] o[u], #[trigger] o[v]) by {
        if v == outs.len() {
            assert(below_fronts(a, b, i, j, outs[u]));
        }
    }
    assert forall|p: int| 0 <= p < i + 1 && j + 1 < b.len() implies text_less(
        #[trigger] key_of(a, p),
        key_of(b, j + 1),
    ) by {
        if p < i {
            lemma_text_less_transitive(key_of(a, p), x, key_of(b, j + 1));
        }
    }
    assert forall|q: int| 0 <= q < j + 1 && i + 1 < a.len() implies text_less(
        #[trigger] key_of(b, q),
        key_of(a, i + 1),
    ) by {
        if q < j {
            lemma_text_less_transitive(key_of(b, q), x, key_of(a, i + 1));
        }
    }
}

/// The keys of a list with one more pair, put in at position `p`.
proof fn lemma_keys_after_insert(s: Seq<(String, String)>, p: int, e: (String, String))
    requires
        0 <= p <= s.len(),
    ensures
        s.insert(p, e).len() == s.len() + 1,
        forall|i: int|
            0 <= i < s.len() + 1 ==> #[trigger] key_of(s.insert(p, e), i) == (if i < p {
                key_of(s, i)
            } else if i == p {
                e.0@
            } else {
                key_of(s, i - 1)
            }),
        forall|i: int|
            0 <= i < s.len() + 1 ==> (#[trigger] s.insert(p, e)[i]).1@ == (if i < p {
                s[i].1@
            } else if i == p {
                e.1@
            } else {
                s[i - 1].1@
            }),
{
}

/// Putting a pair in at the place that its key sorts to keeps the order.
proof fn lemma_insert_keeps_order(s: Seq<(String, String)>, p: int, e: (String, String))
    requires
        keys_ascending(s),
        0 <= p <= s.len(),
        forall|q: int| 0 <= q < p ==> text_less(#[trigger] key_of(s, q), e.0@),
        p < s.len() ==> text_less(e.0@, key_of(s, p)),
    ensures
        keys_ascending(s.insert(p, e)),
{
    let t = s.insert(p, e);
    lemma_keys_after_insert(s, p, e);
    assert forall|i: int, j: int| 0 <= i < j < t.len() implies text_less(
        #[trigger] key_of(t, i),
        #[trigger] key_of(t, j),
    ) by {
        if j < p {
            assert(text_less(key_of(s, i), key_of(s, j)));
        } else if j == p {
            assert(text_less(key_of(s, i), e.0@));
        } else {
            if j - 1 > p {
                assert(text_less(key_of(s, p), key_of(s, j - 1)));
                lemma_text_less_transitive(e.0@, key_of(s, p), key_of(s, j - 1));
            }
            assert(text_less(e.0@, key_of(s, j - 1)));
            if i < p {
                assert(text_less(key_of(s, i), e.0@));
                lemma_text_less_transitive(key_of(s, i), e.0@, key_of(s, j - 1));
            } else if i > p {
                assert(text_less(key_of(s, i - 1), key_of(s, j - 1)));
            }
        }
    }
}

/// Putting a pair in at the place that its key sorts to keeps the order
/// and adds the key with its value.
proof fn lemma_table_insert(s: Seq<(String, String)>, p: int, e: (String, String))
    requires
        keys_ascending(s),
        0 <= p <= s.len(),
        forall|q: int| 0 <= q < p ==> text_less(#[trigger] key_of(s, q), e.0@),
        p < s.len() ==> text_less(e.0@, key_of(s, p)),
    ensures
        keys_ascending(s.insert(p, e)),
        table(s.insert(p, e)) == table(s).insert(e.0@, e.1@),
{
    let t = s.insert(p, e);
    lemma_insert_keeps_order(s, p, e);
    lemma_keys_after_insert(s, p, e);
    assert forall|i: int|
        #![trigger key_of(s, i)]
        0 <= i < s.len() && key_of(s, i) != e.0@ implies exists|j: int|
            0 <= j < t.len() && #[trigger] key_of(t, j) == key_of(s, i) && t[j].1@ == s[i].1@ by {
        let j = if i < p { i } else { i + 1 };
        assert(key_of(t, j) == key_of(s, i));
        assert(t[j].1@ == s[i].1@);
    }
    assert forall|j: int|
        #![trigger key_of(t, j)]
        0 <= j < t.len() && key_of(t, j) != e.0@ implies exists|i: int|
            0 <= i < s.len() && #[trigger] key_of(s, i) == key_of(t, j) by {
        let i = if j < p { j } else { j - 1 };
        assert(key_of(s, i) == key_of(t, j));
    }
    assert(key_of(t, p) == e.0@);
    assert(t[p].1@ == e.1@);
    lemma_table_changed(s, t, e.0@, e.1@, p);
}

/// Replacing the value of a pair keeps the order and sets the key's value.
proof fn lemma_table_update(s: Seq<(String, String)>, p: int, e: (String, String))
    requires
        keys_ascending(s),
        0 <= p < s.len(),
        e.0@ == key_of(s, p),
    ensures
        keys_ascending(s.update(p, e)),
        table(s.update(p, e)) == table(s).insert(e.0@, e.1@),
{
    let t = s.update(p, e);
    assert forall|i: int| 0 <= i < t.len() implies #[trigger] key_of(t, i) == key_of(s, i) by {}
    assert forall|i: int, j: int| 0 <= i < j < t.len() implies text_less(
        #[trigger] key_of(t, i),
        #[trigger] key_of(t, j),
    ) by {
        assert(text_less(key_of(s, i), key_of(s, j)));
    }
    lemma_key_position(s, p);
    assert forall|i: int|
        #![trigger key_of(s, i)]
        0 <= i < s.len() && key_of(s, i) != e.0@ implies exists|j: int|
            0 <= j < t.len() && #[trigger] key_of(t, j) == key_of(s, i) && t[j].1@ == s[i].1@ by {
        assert(key_of(t, i) == key_of(s, i) && t[i].1@ == s[i].1@);
    }
    assert forall|j: int|
        #![trigger key_of(t, j)]
        0 <= j < t.len() && key_of(t, j) != e.0@ implies exists|i: int|
            0 <= i < s.len() && #[trigger] key_of(s, i) == key_of(t, j) by {
        assert(key_of(s, j) == key_of(t, j));
    }
    lemma_table_changed(s, t, e.0@, e.1@, p);
}

/// Two ordered lists that differ in one key alone stand for tables that
/// differ in that key alone.
proof fn lemma_table_changed(
    s: Seq<(String, String)>,
    t: Seq<(String, String)>,
    key: Seq<char>,
    value: Seq<char>,
    p: int,
)
    requires
        keys_ascending(s),
        keys_ascending(t),
        0 <= p < t.len(),
        key_of(t, p) == key,
        t[p].1@ == value,
        forall|i: int|
            #![trigger key_of(s, i)]
            0 <= i < s.len() && key_of(s, i) != key ==> exists|j: int|
                0 <= j < t.len() && #[trigger] key_of(t, j) == key_of(s, i) && t[j].1@ == s[i].1@,
        forall|j: int|
            #![trigger key_of(t, j)]
            0 <= j < t.len() && key_of(t, j) != key ==> exists|i: int|
                0 <= i < s.len() && #[trigger] key_of(s, i) == key_of(t, j),
    ensures
        table(t) == table(s).insert(key, value),
{
    let goal = table(s).insert(key, value);
    assert forall|k: Seq<char>| table(t).dom().contains(k) == goal.dom().contains(k) by {
        if has_key(t, k) {
            let j = choose|j: int| 0 <= j < t.len() && j < t.len() && #[trigger] key_of(t, j) == k;
            if k != key {
                let i = choose|i: int| 0 <= i < s.len() && #[trigger] key_of(s, i) == key_of(t, j);
                assert(key_of(s, i) == k);
            }
        }
        if has_key(s, k) && k != key {
            let i = choose|i: int| 0 <= i < s.len() && i < s.len() && #[trigger] key_of(s, i) == k;
            let j = choose|j: int|
                0 <= j < t.len() && #[trigger] key_of(t, j) == key_of(s, i) && t[j].1@ == s[i].1@;
            assert(key_of(t, j) == k);
        }
        if k == key {
            assert(key_of(t, p) == k);
        }
    }
    assert forall|k: Seq<char>| table(t).dom().contains(k) implies #[trigger] table(t)[k] == goal[k] by {
        if k == key {
            lemma_key_position(t, p);
        } else {
            let i = choose|i: int| 0 <= i < s.len() && i < s.len() && #[trigger] key_of(s, i) == k;
            let j = choose|j: int|
                0 <= j < t.len() && #[trigger] key_of(t, j) == key_of(s, i) && t[j].1@ == s[i].1@;
            lemma_key_position(s, i);
            lemma_key_position(t, j);
        }
    }
    assert(table(t) =~= goal);
}

/// The table that results from setting the first `n` pairs in order, a
/// later pair replacing an earlier one with the same key.
pub open spec fn collected(pairs: Seq<(String, String)>, n: int) -> Map<Seq<char>, Seq<char>>
    decreases n,
{
    if n <= 0 {
        Map::empty()
    } else {
        collected(pairs, n - 1).insert(pairs[n - 1].0@, pairs[n - 1].1@)
    }
}

/// For each alias, the files that consulted it when they were last
/// compiled: alias names on the left, files on the right.
#[derive(Debug)]
pub struct Dependants(pub MultiBiMap);

impl Dependants {
    pub fn new() -> (d: Self)
        ensures
            d.0.wf(),
            d.0.populated(),
            d.0.left_keys() == Set::<Seq<char>>::empty(),
            d.0.right_keys() == Set::<Seq<char>>::empty(),
            d.0.edges() == Set::<(Seq<char>, Seq<char>)>::empty(),
            d.0.model() == Relation::empty(),
    {
        Dependants(MultiBiMap::new())
    }
}

/// What a configuration file gives: its alias table, and who used it.
#[derive(Debug)]
pub struct Luaurc {
    pub aliases: Aliases,
    pub dependants: Dependants,
}

impl Luaurc {
    pub open spec fn wf(&self) -> bool {
        self.aliases.wf() && self.dependants.0.wf()
    }

    /// The configuration read from `pairs`, with no file depending on it yet.
    pub fn new(pairs: Vec<(String, String)>) -> (c: Self)
        ensures
            c.wf(),
            c.aliases@ == collected(pairs@, pairs@.len() as int),
            c.dependants.0.edges() == Set::<(Seq<char>, Seq<char>)>::empty(),
            c.dependants.0.left_keys() == Set::<Seq<char>>::empty(),
            c.dependants.0.right_keys() == Set::<Seq<char>>::empty(),
    {
        Luaurc { aliases: Aliases::new(pairs), dependants: Dependants::new() }
    }
}

/// Texts in strictly ascending order are all different.
pub proof fn lemma_ascending_no_duplicates(t: Seq<Seq<char>>)
    requires
        ascending(t),
    ensures
        t.no_duplicates(),
{
    assert forall|i: int, j: int| 0 <= i < t.len() && 0 <= j < t.len() && i != j implies t[i] != t[j] by {
        if i < j {
            lemma_text_less_asymmetric(t[i], t[j]);
        } else {
            lemma_text_less_asymmetric(t[j], t[i]);
        }
    }
}

impl Default for Aliases {
    fn default() -> (t: Self)
        ensures
            t.wf(),
            t@ == Map::<Seq<char>, Seq<char>>::empty(),
    {
        Aliases::empty()
    }
}

impl Default for Dependants {
    fn default() -> (d: Self)
        ensures
            d.0.wf(),
            d.0.populated(),
            d.0.model() == Relation::empty(),
    {
        Dependants::new()
    }
}

impl Default for Luaurc {
    fn default() -> (c: Self)
        ensures
            c.wf(),
            c.aliases@ == Map::<Seq<char>, Seq<char>>::empty(),
            c.dependants.0.model() == Relation::empty(),
    {
        Luaurc { aliases: Aliases::empty(), dependants: Dependants::new() }
    }
}

} // verus!
