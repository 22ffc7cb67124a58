//! What holds of paths in general: a path written out from its components
//! reads back as those components, the normal form of a normal form is
//! itself, and the identity of a source file leads back to the file.

use vstd::prelude::*;
use crate::path::close;
use crate::path::components;
use crate::path::is_absolute;
use crate::path::joined;
use crate::path::joined_paths;
use crate::path::leads;
use crate::path::normalized;
use crate::path::parent;
use crate::path::path_starts_with;
use crate::path::relative_path;
use crate::path::rendered;
use crate::path::resolved;
use crate::path::runs;
use crate::path::step;

verus! {

/// A component as splitting yields it: not empty, without `/`, and not `.`.
pub open spec fn clean_part(c: Seq<char>) -> bool {
    c.len() > 0 && c != seq!['.'] && forall|i: int| 0 <= i < c.len() ==> c[i] != '/'
}

/// Every component is as splitting yields it.
pub open spec fn clean(parts: Seq<Seq<char>>) -> bool {
    forall|i: int| 0 <= i < parts.len() ==> clean_part(#[trigger] parts[i])
}

/// Every `..` stands before every other component, and an absolute path
/// has none.
pub open spec fn settled(parts: Seq<Seq<char>>, absolute: bool) -> bool {
    &&& absolute ==> forall|i: int| 0 <= i < parts.len() ==> #[trigger] parts[i] != parent()
    &&& forall|i: int, j: int|
        0 <= i < j < parts.len() && #[trigger] parts[j] == parent() ==> #[trigger] parts[i] == parent()
}

/// Reading `k` more characters, those of `s`, from a state of the split.
pub open spec fn runs_from(done: Seq<Seq<char>>, cur: Seq<char>, s: Seq<char>, k: int) -> (
    Seq<Seq<char>>,
    Seq<char>,
)
    decreases k,
{
    if k <= 0 {
        (done, cur)
    } else {
        let before = runs_from(done, cur, s, k - 1);
        if s[k - 1] == '/' {
            (close(before.0, before.1), Seq::empty())
        } else {
            (before.0, before.1.push(s[k - 1]))
        }
    }
}

/// Splitting a text that goes on with `b` is splitting on from where the
/// split of the text before `b` stood.
pub proof fn lemma_runs_append(a: Seq<char>, b: Seq<char>, k: int)
    requires
        0 <= k <= b.len(),
    ensures
        runs(a + b, a.len() + k) == runs_from(
            runs(a, a.len() as int).0,
            runs(a, a.len() as int).1,
            b,
            k,
        ),
    decreases k,
{
    if k == 0 {
        lemma_runs_prefix(a, b, a.len() as int);
    } else {
        lemma_runs_append(a, b, k - 1);
        assert((a + b)[a.len() + k - 1] == b[k - 1]);
    }
}

/// The split of the first `j` characters does not look at what follows.
pub proof fn lemma_runs_prefix(a: Seq<char>, b: Seq<char>, j: int)
    requires
        0 <= j <= a.len(),
    ensures
        runs(a + b, j) == runs(a, j),
    decreases j,
{
    if j > 0 {
        lemma_runs_prefix(a, b, j - 1);
        assert((a + b)[j - 1] == a[j - 1]);
    }
}

/// Characters other than `/` join the run at hand.
pub proof fn lemma_runs_from_part(done: Seq<Seq<char>>, cur: Seq<char>, p: Seq<char>, k: int)
    requires
        0 <= k <= p.len(),
        forall|i: int| 0 <= i < p.len() ==> p[i] != '/',
    ensures
        runs_from(done, cur, p, k) == (done, cur + p.take(k)),
    decreases k,
{
    if k == 0 {
        assert(cur + p.take(0) =~= cur);
    } else {
        lemma_runs_from_part(done, cur, p, k - 1);
        assert(cur + p.take(k) =~= (cur + p.take(k - 1)).push(p[k - 1]));
    }
}

/// Splitting yields clean components, and the run at hand holds no `/`.
pub proof fn lemma_runs_clean(s: Seq<char>, n: int)
    requires
        0 <= n <= s.len(),
    ensures
        clean(runs(s, n).0),
        forall|i: int| 0 <= i < runs(s, n).1.len() ==> runs(s, n).1[i] != '/',
        clean(close(runs(s, n).0, runs(s, n).1)),
    decreases n,
{
    if n > 0 {
        lemma_runs_clean(s, n - 1);
    }
    let st = runs(s, n);
    let c = close(st.0, st.1);
    assert forall|i: int| 0 <= i < c.len() implies clean_part(#[trigger] c[i]) by {
        if i < st.0.len() {
            assert(clean_part(st.0[i]));
        }
    }
}

/// The components of a path are clean.
pub proof fn lemma_components_clean(s: Seq<char>)
    ensures
        clean(components(s)),
{
    lemma_runs_clean(s, s.len() as int);
}

/// A joined text begins as its first component does.
proof fn lemma_joined_first(parts: Seq<Seq<char>>, n: int)
    requires
        clean(parts),
        1 <= n <= parts.len(),
    ensures
        joined(parts, n).len() > 0,
        joined(parts, n)[0] == parts[0][0],
    decreases n,
{
    assert(clean_part(parts[0]));
    if n > 1 {
        lemma_joined_first(parts, n - 1);
        assert(joined(parts, n) == joined(parts, n - 1).push('/') + parts[n - 1]);
    }
}

/// After the first `n` components of a clean list are read from their
/// joined text, all but the last are finished and the last is at hand.
proof fn lemma_joined_state(head: Seq<char>, parts: Seq<Seq<char>>, n: int)
    requires
        clean(parts),
        1 <= n <= parts.len(),
        head == Seq::<char>::empty() || head == seq!['/'],
    ensures
        runs(head + joined(parts, n), (head + joined(parts, n)).len() as int) == (
            parts.take(n - 1),
            parts[n - 1],
        ),
    decreases n,
{
    let none = Seq::<Seq<char>>::empty();
    let p = parts[n - 1];
    assert(clean_part(p));
    if n == 1 {
        assert(runs(head, head.len() as int) == (none, Seq::<char>::empty())) by {
            if head == seq!['/'] {
                assert(head.len() == 1);
                assert(head[0] == '/');
                assert(runs(head, 0) == (none, Seq::<char>::empty()));
                assert(runs(head, 1) == (
                    close(runs(head, 0).0, runs(head, 0).1),
                    Seq::<char>::empty(),
                ));
            } else {
                assert(head.len() == 0);
            }
        }
        lemma_runs_append(head, p, p.len() as int);
        lemma_runs_from_part(none, Seq::<char>::empty(), p, p.len() as int);
        assert(p.take(p.len() as int) =~= p);
        assert(Seq::<char>::empty() + p =~= p);
        assert(parts.take(0) =~= none);
        assert(joined(parts, 1) == p);
    } else {
        lemma_joined_state(head, parts, n - 1);
        let b = head + joined(parts, n - 1);
        let a = b.push('/');
        assert(joined(parts, n) == joined(parts, n - 1).push('/') + p);
        assert(head + joined(parts, n) =~= a + p);
        lemma_runs_prefix(b, seq!['/'], b.len() as int);
        assert(b + seq!['/'] =~= a);
        assert(a[b.len() as int] == '/');
        assert(runs(a, a.len() as int) == (
            close(runs(a, b.len() as int).0, runs(a, b.len() as int).1),
            Seq::<char>::empty(),
        ));
        assert(clean_part(parts[n - 2]));
        assert(parts.take(n - 2).push(parts[n - 2]) =~= parts.take(n - 1));
        lemma_runs_append(a, p, p.len() as int);
        lemma_runs_from_part(parts.take(n - 1), Seq::<char>::empty(), p, p.len() as int);
        assert(p.take(p.len() as int) =~= p);
        assert(Seq::<char>::empty() + p =~= p);
    }
}

/// A path written out from clean components reads back as those
/// components, and is absolute just when it was written so.
pub proof fn lemma_render_reads_back(absolute: bool, parts: Seq<Seq<char>>)
    requires
        clean(parts),
    ensures
        components(rendered(absolute, parts)) == parts,
        is_absolute(rendered(absolute, parts)) == absolute,
{
    let none = Seq::<Seq<char>>::empty();
    let head = if absolute { seq!['/'] } else { Seq::<char>::empty() };
    let n = parts.len() as int;
    let text = rendered(absolute, parts);
    assert(text =~= head + joined(parts, n));
    if n == 0 {
        assert(joined(parts, 0) =~= Seq::<char>::empty());
        assert(text =~= head);
        if absolute {
            assert(text.len() == 1);
            assert(text[0] == '/');
            assert(runs(text, 0) == (none, Seq::<char>::empty()));
            assert(runs(text, 1) == (close(runs(text, 0).0, runs(text, 0).1), Seq::<char>::empty()));
        } else {
            assert(text.len() == 0);
        }
        assert(components(text) =~= parts);
    } else {
        lemma_joined_state(head, parts, n);
        assert(clean_part(parts[n - 1]));
        assert(parts.take(n - 1).push(parts[n - 1]) =~= parts);
        lemma_joined_first(parts, n);
        assert(clean_part(parts[0]));
        if absolute {
            assert(text[0] == '/');
        } else {
            assert(text[0] == parts[0][0]);
        }
    }
}

/// Resolving `..` in clean components leaves clean components, with every
/// `..` that stays in front of all else.
pub proof fn lemma_resolved_settled(parts: Seq<Seq<char>>, n: int, absolute: bool)
    requires
        clean(parts),
        0 <= n <= parts.len(),
    ensures
        clean(resolved(parts, n, absolute)),
        settled(resolved(parts, n, absolute), absolute),
    decreases n,
{
    if n > 0 {
        lemma_resolved_settled(parts, n - 1, absolute);
        let kept = resolved(parts, n - 1, absolute);
        let c = parts[n - 1];
        let next = step(kept, c, absolute);
        assert(clean_part(c));
        assert forall|i: int| 0 <= i < next.len() implies clean_part(#[trigger] next[i]) by {
            if i < kept.len() {
                assert(clean_part(kept[i]));
            }
        }
        assert forall|i: int| 0 <= i < next.len() && absolute implies #[trigger] next[i] != parent() by {
            if i < kept.len() {
                assert(kept[i] != parent());
            } else {
                if c == parent() {
                    if kept.len() > 0 {
                        assert(kept[kept.len() - 1] != parent());
                    }
                }
            }
        }
        assert forall|i: int, j: int|
            0 <= i < j < next.len() && #[trigger] next[j] == parent() implies #[trigger] next[i]
            == parent() by {
            if j < kept.len() {
                assert(kept[j] == parent());
                assert(kept[i] == parent());
            } else {
                assert(next == kept.push(c));
                assert(c == parent());
                assert(kept.len() > 0);
                assert(kept.last() == parent());
                if i < kept.len() - 1 {
                    assert(kept[kept.len() - 1] == parent());
                    assert(kept[i] == parent());
                }
            }
        }
    }
}

/// Components in which every `..` stands in front are resolved already.
pub proof fn lemma_settled_is_resolved(parts: Seq<Seq<char>>, n: int, absolute: bool)
    requires
        settled(parts, absolute),
        0 <= n <= parts.len(),
    ensures
        resolved(parts, n, absolute) == parts.take(n),
    decreases n,
{
    if n == 0 {
        assert(parts.take(0) =~= Seq::<Seq<char>>::empty());
    } else {
        lemma_settled_is_resolved(parts, n - 1, absolute);
        let kept = parts.take(n - 1);
        let c = parts[n - 1];
        if c == parent() {
            assert(!absolute);
            if kept.len() > 0 {
                assert(kept.last() == parts[n - 2]);
                assert(parts[n - 2] == parent());
            }
        }
        assert(kept.push(c) =~= parts.take(n));
    }
}

/// The normal form of a path is in normal form.
pub proof fn lemma_normalized_idempotent(s: Seq<char>)
    ensures
        normalized(normalized(s)) == normalized(s),
        components(normalized(s)) == resolved(
            components(s),
            components(s).len() as int,
            is_absolute(s),
        ),
        is_absolute(normalized(s)) == is_absolute(s),
{
    let parts = components(s);
    let absolute = is_absolute(s);
    let kept = resolved(parts, parts.len() as int, absolute);
    lemma_components_clean(s);
    lemma_resolved_settled(parts, parts.len() as int, absolute);
    lemma_render_reads_back(absolute, kept);
    lemma_settled_is_resolved(kept, kept.len() as int, absolute);
    assert(kept.take(kept.len() as int) =~= kept);
}

/// Closing a run does not look at the components finished before.
proof fn lemma_close_after(done: Seq<Seq<char>>, more: Seq<Seq<char>>, cur: Seq<char>)
    ensures
        close(done + more, cur) == done + close(more, cur),
{
    assert(close(done + more, cur) =~= done + close(more, cur));
}

/// Splitting on with no run at hand adds the split of what follows.
proof fn lemma_runs_from_fresh(done: Seq<Seq<char>>, b: Seq<char>, k: int)
    requires
        0 <= k <= b.len(),
    ensures
        runs_from(done, Seq::empty(), b, k) == (done + runs(b, k).0, runs(b, k).1),
    decreases k,
{
    if k == 0 {
        assert(done + Seq::<Seq<char>>::empty() =~= done);
    } else {
        lemma_runs_from_fresh(done, b, k - 1);
        lemma_close_after(done, runs(b, k - 1).0, runs(b, k - 1).1);
    }
}

/// The components of two texts with a `/` between them are those of the
/// first followed by those of the second.
pub proof fn lemma_components_across_separator(a: Seq<char>, b: Seq<char>)
    ensures
        components(a.push('/') + b) == components(a) + components(b),
{
    let front = a.push('/');
    lemma_runs_prefix(a, seq!['/'], a.len() as int);
    assert(a + seq!['/'] =~= front);
    assert(front[a.len() as int] == '/');
    assert(runs(front, front.len() as int) == (
        close(runs(front, a.len() as int).0, runs(front, a.len() as int).1),
        Seq::<char>::empty(),
    ));
    lemma_runs_append(front, b, b.len() as int);
    lemma_runs_from_fresh(components(a), b, b.len() as int);
    lemma_close_after(components(a), runs(b, b.len() as int).0, runs(b, b.len() as int).1);
}

/// A relative path seen from a base has the components of the base followed
/// by its own, and is absolute just when the base is.
pub proof fn lemma_components_of_joined(base: Seq<char>, rel: Seq<char>)
    requires
        !is_absolute(rel),
    ensures
        components(joined_paths(base, rel)) == components(base) + components(rel),
        is_absolute(joined_paths(base, rel)) == is_absolute(base),
{
    let none = Seq::<Seq<char>>::empty();
    if base.len() == 0 {
        assert(base + rel =~= rel);
        assert(components(base) =~= none);
        assert(none + components(rel) =~= components(rel));
    } else if base.last() == '/' {
        let a = base.drop_last();
        assert(a.push('/') =~= base);
        lemma_components_across_separator(a, rel);
        lemma_components_across_separator(a, Seq::<char>::empty());
        assert(a.push('/') + Seq::<char>::empty() =~= base);
        assert(components(Seq::<char>::empty()) =~= none);
        assert(components(a) + none =~= components(a));
        assert((base + rel)[0] == base[0]);
    } else {
        lemma_components_across_separator(base, rel);
        assert((base.push('/') + rel)[0] == base[0]);
    }
}

/// The identity of a source file leads back to the file: the normal form of
/// a path that lies under a base, taken relative to the base and then seen
/// from the base again, is that normal form.
pub proof fn lemma_identity_leads_back(path: Seq<char>, base: Seq<char>)
    requires
        path_starts_with(normalized(path), base),
    ensures
        relative_path(normalized(path), base) is Some,
        normalized(joined_paths(base, relative_path(normalized(path), base)->0)) == normalized(
            path,
        ),
{
    let np = normalized(path);
    let absolute = is_absolute(path);
    let kept = components(np);
    let lead = components(base);
    let rest = kept.skip(lead.len() as int);
    let id = relative_path(np, base)->0;
    lemma_normalized_idempotent(path);
    lemma_components_clean(path);
    lemma_resolved_settled(components(path), components(path).len() as int, absolute);
    assert(clean(kept));
    assert forall|i: int| 0 <= i < rest.len() implies clean_part(#[trigger] rest[i]) by {
        assert(rest[i] == kept[i + lead.len()]);
        assert(clean_part(kept[i + lead.len()]));
    }
    lemma_render_reads_back(false, rest);
    lemma_components_of_joined(base, id);
    let back = joined_paths(base, id);
    assert(components(back) =~= kept) by {
        assert(leads(lead, kept));
        assert forall|i: int| 0 <= i < kept.len() implies (lead + rest)[i] == kept[i] by {
            if i < lead.len() {
                assert(lead[i] == kept[i]);
            }
        }
    }
    lemma_settled_is_resolved(kept, kept.len() as int, absolute);
    assert(kept.take(kept.len() as int) =~= kept);
}

} // verus!
