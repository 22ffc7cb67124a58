//! Lexical handling of `/`-separated paths: components, normal form,
//! prefixes, file names and extensions. Nothing here touches a file system.

use vstd::prelude::*;

verus! {

/// The characters of `s`, in order.
pub fn chars_of(s: &str) -> (v: Vec<char>)
    ensures
        v@ == s@,
{
    let mut v: Vec<char> = Vec::new();
    for c in it: s.chars()
        invariant
            it.seq() == s@,
            v@ == it.seq().take(it.index() as int),
    {
        v.push(c);
        proof {
            assert(v@ =~= it.seq().take(it.index() + 1));
        }
    }
    proof {
        assert(v@ =~= s@);
    }
    v
}

/// `String::push` of the standard library: the character is appended and
/// nothing else changes.
#[verifier::external_body]
fn push_char(s: &mut String, c: char)
    ensures
        final(s)@ == old(s)@.push(c),
{
    s.push(c);
}

/// The string made of the characters of `v`, in order.
pub fn string_of(v: &Vec<char>) -> (s: String)
    ensures
        s@ == v@,
{
    let mut s = String::new();
    let mut i: usize = 0;
    while i < v.len()
        invariant
            0 <= i <= v.len(),
            s@ == v@.take(i as int),
        decreases v.len() - i,
    {
        push_char(&mut s, v[i]);
        proof {
            assert(v@.take(i + 1) =~= v@.take(i as int).push(v@[i as int]));
        }
        i += 1;
    }
    proof {
        assert(v@.take(v.len() as int) =~= v@);
    }
    s
}

/// The characters of each row.
pub open spec fn rows(v: Seq<Vec<char>>) -> Seq<Seq<char>> {
    v.map_values(|r: Vec<char>| r@)
}

/// The run `cur` joins the finished components unless it is empty or `.`.
pub open spec fn close(done: Seq<Seq<char>>, cur: Seq<char>) -> Seq<Seq<char>> {
    if cur.len() == 0 || cur == seq!['.'] {
        done
    } else {
        done.push(cur)
    }
}

/// The components finished within the first `n` characters of `s`, and the
/// run of characters since the last `/`.
pub open spec fn runs(s: Seq<char>, n: int) -> (Seq<Seq<char>>, Seq<char>)
    decreases n,
{
    if n <= 0 {
        (Seq::empty(), Seq::empty())
    } else {
        let before = runs(s, n - 1);
        if s[n - 1] == '/' {
            (close(before.0, before.1), Seq::empty())
        } else {
            (before.0, before.1.push(s[n - 1]))
        }
    }
}

/// The components of a path: its maximal runs of characters other than `/`,
/// without the empty ones and without those that are a single `.`.
pub open spec fn components(s: Seq<char>) -> Seq<Seq<char>> {
    let all = runs(s, s.len() as int);
    close(all.0, all.1)
}

/// A path is absolute when it begins with `/`.
pub open spec fn is_absolute(s: Seq<char>) -> bool {
    s.len() > 0 && s[0] == '/'
}

/// Whether `c` is the component `..`.
pub fn is_parent(c: &Vec<char>) -> (r: bool)
    ensures
        r == (c@ == seq!['.', '.']),
{
    let r = c.len() == 2 && c[0] == '.' && c[1] == '.';
    proof {
        if r {
            assert(c@ =~= seq!['.', '.']);
        } else if c@.len() == 2 {
            assert(seq!['.', '.'][0] == '.');
            assert(seq!['.', '.'][1] == '.');
        } else {
            assert(seq!['.', '.'].len() == 2);
        }
    }
    r
}

/// The components of `s`.
pub fn split(s: &str) -> (parts: Vec<Vec<char>>)
    ensures
        rows(parts@) == components(s@),
{
    let text = chars_of(s);
    split_chars(&text)
}

/// The components of the path that `text` spells.
pub fn split_chars(text: &Vec<char>) -> (parts: Vec<Vec<char>>)
    ensures
        rows(parts@) == components(text@),
{
    let mut parts: Vec<Vec<char>> = Vec::new();
    let mut cur: Vec<char> = Vec::new();
    let mut i: usize = 0;
    proof {
        assert(rows(parts@) =~= Seq::<Seq<char>>::empty());
    }
    while i < text.len()
        invariant
            0 <= i <= text.len(),
            rows(parts@) == runs(text@, i as int).0,
            cur@ == runs(text@, i as int).1,
        decreases text.len() - i,
    {
        let c = text[i];
        if c == '/' {
            close_run(&mut parts, cur);
            cur = Vec::new();
        } else {
            cur.push(c);
        }
        i += 1;
    }
    close_run(&mut parts, cur);
    parts
}

/// Moves the run `cur` to the end of `parts` unless it is empty or `.`.
fn close_run(parts: &mut Vec<Vec<char>>, cur: Vec<char>)
    ensures
        rows(final(parts)@) == close(rows(old(parts)@), cur@),
{
    let single_dot = cur.len() == 1 && cur[0] == '.';
    proof {
        if single_dot {
            assert(cur@ =~= seq!['.']);
        } else if cur@.len() == 1 {
            assert(seq!['.'][0] == '.');
        } else {
            assert(seq!['.'].len() == 1);
        }
    }
    if cur.len() > 0 && !single_dot {
        proof {
            assert(rows(parts@.push(cur)) =~= rows(parts@).push(cur@));
        }
        parts.push(cur);
    }
}

/// The component `..`.
pub open spec fn parent() -> Seq<char> {
    seq!['.', '.']
}

/// The components kept after one more component `c` is read. `..` takes
/// back the component before it; at the root of an absolute path it is
/// dropped, and where a relative path has nothing left to take back it stays.
pub open spec fn step(kept: Seq<Seq<char>>, c: Seq<char>, absolute: bool) -> Seq<Seq<char>> {
    if c != parent() {
        kept.push(c)
    } else if kept.len() > 0 && kept.last() != parent() {
        kept.drop_last()
    } else if kept.len() == 0 && absolute {
        kept
    } else {
        kept.push(c)
    }
}

/// The components kept after the first `n` of `parts` are read.
pub open spec fn resolved(parts: Seq<Seq<char>>, n: int, absolute: bool) -> Seq<Seq<char>>
    decreases n,
{
    if n <= 0 {
        Seq::empty()
    } else {
        step(resolved(parts, n - 1, absolute), parts[n - 1], absolute)
    }
}

/// The first `n` of `parts` with a `/` between each two.
pub open spec fn joined(parts: Seq<Seq<char>>, n: int) -> Seq<char>
    decreases n,
{
    if n <= 0 {
        Seq::empty()
    } else if n == 1 {
        parts[0]
    } else {
        joined(parts, n - 1).push('/') + parts[n - 1]
    }
}

/// The text of a path from its components.
pub open spec fn rendered(absolute: bool, parts: Seq<Seq<char>>) -> Seq<char> {
    if absolute {
        seq!['/'] + joined(parts, parts.len() as int)
    } else {
        joined(parts, parts.len() as int)
    }
}

/// The normal form of a path: `.` and empty components are dropped, `..`
/// is resolved against the component before it, and one `/` stands between
/// each two components.
pub open spec fn normalized(s: Seq<char>) -> Seq<char> {
    let parts = components(s);
    rendered(is_absolute(s), resolved(parts, parts.len() as int, is_absolute(s)))
}

/// Resolves `..` in a list of components.
pub fn resolve(parts: Vec<Vec<char>>, absolute: bool) -> (kept: Vec<Vec<char>>)
    ensures
        rows(kept@) == resolved(rows(parts@), parts@.len() as int, absolute),
{
    let ghost all = rows(parts@);
    let mut kept: Vec<Vec<char>> = Vec::new();
    let mut i: usize = 0;
    proof {
        assert(rows(kept@) =~= Seq::<Seq<char>>::empty());
    }
    while i < parts.len()
        invariant
            all == rows(parts@),
            0 <= i <= parts.len(),
            rows(kept@) == resolved(all, i as int, absolute),
        decreases parts.len() - i,
    {
        let ghost before = kept@;
        let up = is_parent(&parts[i]);
        let after_up = kept.len() > 0 && is_parent(&kept[kept.len() - 1]);
        proof {
            assert(all[i as int] == parts@[i as int]@);
            if kept@.len() > 0 {
                assert(rows(before).last() == before[before.len() - 1]@);
            }
        }
        if !up {
            kept.push(parts[i].clone());
            proof {
                assert(rows(kept@) =~= rows(before).push(all[i as int]));
            }
        } else if kept.len() > 0 && !after_up {
            let _ = kept.pop();
            proof {
                assert(rows(kept@) =~= rows(before).drop_last());
            }
        } else if kept.len() == 0 && absolute {
        } else {
            kept.push(parts[i].clone());
            proof {
                assert(rows(kept@) =~= rows(before).push(all[i as int]));
            }
        }
        i += 1;
    }
    kept
}

/// Writes a path out from its components.
pub fn render(absolute: bool, parts: &Vec<Vec<char>>) -> (s: String)
    ensures
        s@ == rendered(absolute, rows(parts@)),
{
    let ghost all = rows(parts@);
    let mut text: Vec<char> = Vec::new();
    if absolute {
        text.push('/');
    }
    let ghost head = text@;
    let mut i: usize = 0;
    proof {
        assert(head =~= if absolute { seq!['/'] } else { Seq::<char>::empty() });
        assert(text@ =~= head + joined(all, 0));
    }
    while i < parts.len()
        invariant
            all == rows(parts@),
            0 <= i <= parts.len(),
            text@ == head + joined(all, i as int),
        decreases parts.len() - i,
    {
        let ghost start = text@;
        if i > 0 {
            text.push('/');
        }
        let ghost mid = text@;
        let part = &parts[i];
        let mut j: usize = 0;
        while j < part.len()
            invariant
                0 <= j <= part.len(),
                text@ == mid + part@.take(j as int),
            decreases part.len() - j,
        {
            text.push(part[j]);
            proof {
                assert(part@.take(j + 1) =~= part@.take(j as int).push(part@[j as int]));
                assert(text@ =~= mid + part@.take(j + 1));
            }
            j += 1;
        }
        proof {
            assert(part@.take(part@.len() as int) =~= part@);
            assert(all[i as int] == part@);
            if i == 0 {
                assert(joined(all, 1) == part@);
                assert(joined(all, 0) =~= Seq::<char>::empty());
                assert(text@ =~= head + joined(all, 1));
            } else {
                assert(text@ =~= head + joined(all, i + 1));
            }
        }
        i += 1;
    }
    proof {
        if !absolute {
            assert(head + joined(all, all.len() as int) =~= joined(all, all.len() as int));
        }
    }
    string_of(&text)
}

/// Paths that can be brought into normal form.
pub trait NormalizePath {
    /// The path as text.
    spec fn path_text(&self) -> Seq<char>;

    /// The normal form of the path.
    fn normalize(&self) -> (r: String)
        ensures
            r@ == normalized(self.path_text()),
    ;
}

impl NormalizePath for str {
    open spec fn path_text(&self) -> Seq<char> {
        self@
    }

    fn normalize(&self) -> (r: String) {
        normalize_chars(&chars_of(self))
    }
}

impl NormalizePath for String {
    open spec fn path_text(&self) -> Seq<char> {
        self@
    }

    fn normalize(&self) -> (r: String) {
        self.as_str().normalize()
    }
}

/// Whether the path begins with `/`.
pub fn starts_at_root(s: &str) -> (r: bool)
    ensures
        r == is_absolute(s@),
{
    let text = chars_of(s);
    text.len() > 0 && text[0] == '/'
}

/// `text` ends with `suffix`.
pub open spec fn ends_with(text: Seq<char>, suffix: Seq<char>) -> bool {
    text.len() >= suffix.len() && text.skip(text.len() - suffix.len()) == suffix
}

/// Whether `text` ends with `suffix`.
pub fn has_suffix(text: &Vec<char>, suffix: &Vec<char>) -> (r: bool)
    ensures
        r == ends_with(text@, suffix@),
{
    if text.len() < suffix.len() {
        return false;
    }
    let off = text.len() - suffix.len();
    let mut i: usize = 0;
    while i < suffix.len()
        invariant
            off + suffix.len() == text.len(),
            0 <= i <= suffix.len(),
            forall|k: int| 0 <= k < i ==> text@[off + k] == suffix@[k],
        decreases suffix.len() - i,
    {
        if text[off + i] != suffix[i] {
            proof {
                assert(text@.skip(off as int)[i as int] == text@[off + i]);
            }
            return false;
        }
        i += 1;
    }
    proof {
        assert(text@.skip(off as int) =~= suffix@);
    }
    true
}

/// Whether the two lists hold the same characters.
pub fn same_chars(a: &Vec<char>, b: &Vec<char>) -> (r: bool)
    ensures
        r == (a@ == b@),
{
    if a.len() != b.len() {
        return false;
    }
    let mut i: usize = 0;
    while i < a.len()
        invariant
            a.len() == b.len(),
            0 <= i <= a.len(),
            forall|k: int| 0 <= k < i ==> a@[k] == b@[k],
        decreases a.len() - i,
    {
        if a[i] != b[i] {
            return false;
        }
        i += 1;
    }
    proof {
        assert(a@ =~= b@);
    }
    true
}

/// The greatest position below `k` at which `name` holds a `.`, or -1.
pub open spec fn last_dot(name: Seq<char>, k: int) -> int
    decreases k,
{
    if k <= 0 {
        -1
    } else if name[k - 1] == '.' {
        k - 1
    } else {
        last_dot(name, k - 1)
    }
}

/// The part of a file name before its extension: what stands before the
/// last `.`, or the whole name where it has no `.` but a leading one.
pub open spec fn stem_of(name: Seq<char>) -> Seq<char> {
    let d = last_dot(name, name.len() as int);
    if d <= 0 {
        name
    } else {
        name.take(d)
    }
}

/// The extension of a file name: what follows the last `.`, where a `.`
/// other than a leading one exists.
pub open spec fn extension_of(name: Seq<char>) -> Option<Seq<char>> {
    let d = last_dot(name, name.len() as int);
    if d <= 0 {
        None
    } else {
        Some(name.skip(d + 1))
    }
}

/// The last component of a path, unless the path has none or ends in `..`.
pub open spec fn file_name_of(s: Seq<char>) -> Option<Seq<char>> {
    let parts = components(s);
    if parts.len() > 0 && parts.last() != parent() {
        Some(parts.last())
    } else {
        None
    }
}

/// The suffix that marks a generated artifact.
pub open spec fn artifact_suffix() -> Seq<char> {
    seq!['.', 'm', 'o', 'd', 'e', 'l', '.', 'j', 's', 'o', 'n']
}

/// The extension that replaces a source file's own in its artifact's name.
pub open spec fn artifact_extension() -> Seq<char> {
    seq!['m', 'o', 'd', 'e', 'l', '.', 'j', 's', 'o', 'n']
}

/// The extension of a source file.
pub open spec fn source_extension() -> Seq<char> {
    seq!['r', 's', 'm', 'l']
}

/// The path names a generated artifact: its file name ends in `.model.json`.
pub open spec fn is_artifact_path(s: Seq<char>) -> bool {
    file_name_of(s) matches Some(name) && ends_with(name, artifact_suffix())
}

/// The path names a source file: its file name has the extension `rsml`.
pub open spec fn is_source_path(s: Seq<char>) -> bool {
    file_name_of(s) matches Some(name) && extension_of(name) == Some(source_extension())
}

/// The position of the last `.` in `name`, if it has one.
pub fn find_last_dot(name: &Vec<char>) -> (r: Option<usize>)
    ensures
        match r {
            Some(d) => d < name@.len() && d as int == last_dot(name@, name@.len() as int),
            None => last_dot(name@, name@.len() as int) == -1,
        },
{
    let mut k: usize = name.len();
    while k > 0
        invariant
            0 <= k <= name.len(),
            last_dot(name@, name@.len() as int) == last_dot(name@, k as int),
        decreases k,
    {
        if name[k - 1] == '.' {
            return Some(k - 1);
        }
        k -= 1;
    }
    None
}

fn artifact_suffix_chars() -> (v: Vec<char>)
    ensures
        v@ == artifact_suffix(),
{
    let v = vec!['.', 'm', 'o', 'd', 'e', 'l', '.', 'j', 's', 'o', 'n'];
    proof {
        assert(v@ =~= artifact_suffix());
    }
    v
}

fn source_extension_chars() -> (v: Vec<char>)
    ensures
        v@ == source_extension(),
{
    let v = vec!['r', 's', 'm', 'l'];
    proof {
        assert(v@ =~= source_extension());
    }
    v
}

/// Whether the list of components ends in a file name, and where.
fn name_index(parts: &Vec<Vec<char>>) -> (r: Option<usize>)
    ensures
        match r {
            Some(i) => i + 1 == parts@.len() && rows(parts@).last() != parent(),
            None => parts@.len() == 0 || rows(parts@).last() == parent(),
        },
{
    if parts.len() == 0 {
        return None;
    }
    let i = parts.len() - 1;
    proof {
        assert(rows(parts@).last() == parts@[i as int]@);
    }
    if is_parent(&parts[i]) {
        None
    } else {
        Some(i)
    }
}

/// Whether the path names a generated artifact.
pub fn is_artifact(path: &str) -> (r: bool)
    ensures
        r == is_artifact_path(path@),
{
    let parts = split(path);
    match name_index(&parts) {
        Some(i) => {
            proof {
                assert(rows(parts@).last() == parts@[i as int]@);
            }
            has_suffix(&parts[i], &artifact_suffix_chars())
        },
        None => false,
    }
}

/// Whether the path names a source file.
pub fn is_source(path: &str) -> (r: bool)
    ensures
        r == is_source_path(path@),
{
    let parts = split(path);
    match name_index(&parts) {
        Some(i) => {
            proof {
                assert(rows(parts@).last() == parts@[i as int]@);
            }
            name_is_source(&parts[i])
        },
        None => false,
    }
}

/// Whether a file name has the extension of a source file.
pub fn name_is_source(name: &Vec<char>) -> (r: bool)
    ensures
        r == (extension_of(name@) == Some(source_extension())),
{
    match find_last_dot(name) {
        Some(d) => {
            if d == 0 {
                return false;
            }
            let ext = source_extension_chars();
            if name.len() - (d + 1) != ext.len() {
                return false;
            }
            let r = has_suffix(name, &ext);
            proof {
                assert(name@.skip(name@.len() - ext@.len()) == name@.skip(d + 1));
            }
            r
        },
        None => false,
    }
}

/// `name` with its extension replaced by `ext`.
pub open spec fn renamed(name: Seq<char>, ext: Seq<char>) -> Seq<char> {
    stem_of(name).push('.') + ext
}

/// The components of a path whose file name gets the extension `ext`. A
/// path without a file name stays as it is.
pub open spec fn with_extension(parts: Seq<Seq<char>>, ext: Seq<char>) -> Seq<Seq<char>> {
    if parts.len() > 0 && parts.last() != parent() {
        parts.drop_last().push(renamed(parts.last(), ext))
    } else {
        parts
    }
}

/// `a` is the beginning of `b`.
pub open spec fn leads(a: Seq<Seq<char>>, b: Seq<Seq<char>>) -> bool {
    a.len() <= b.len() && forall|i: int| 0 <= i < a.len() ==> a[i] == b[i]
}

/// `path` lies at or under `base`: both are absolute or both relative, and
/// the components of `base` are the first components of `path`.
pub open spec fn path_starts_with(path: Seq<char>, base: Seq<char>) -> bool {
    is_absolute(path) == is_absolute(base) && leads(components(base), components(path))
}

/// Where the artifact of the source `path` goes: `path` is taken relative
/// to `input`, placed under `output`, and its extension replaced. There is
/// none for a path outside `input`.
pub open spec fn artifact_path(input: Seq<char>, output: Seq<char>, path: Seq<char>) -> Option<
    Seq<char>,
> {
    if path_starts_with(path, input) {
        let rest = components(path).skip(components(input).len() as int);
        Some(
            rendered(
                is_absolute(output),
                with_extension(components(output) + rest, artifact_extension()),
            ),
        )
    } else {
        None
    }
}

/// `path` relative to `base`, for a path at or under `base`.
pub open spec fn relative_path(path: Seq<char>, base: Seq<char>) -> Option<Seq<char>> {
    if path_starts_with(path, base) {
        Some(rendered(false, components(path).skip(components(base).len() as int)))
    } else {
        None
    }
}

/// Whether the components `a` are the first components of `b`.
pub fn parts_lead(a: &Vec<Vec<char>>, b: &Vec<Vec<char>>) -> (r: bool)
    ensures
        r == leads(rows(a@), rows(b@)),
{
    if a.len() > b.len() {
        return false;
    }
    let mut i: usize = 0;
    while i < a.len()
        invariant
            a.len() <= b.len(),
            0 <= i <= a.len(),
            forall|k: int| 0 <= k < i ==> rows(a@)[k] == rows(b@)[k],
        decreases a.len() - i,
    {
        if !same_chars(&a[i], &b[i]) {
            proof {
                assert(rows(a@)[i as int] == a@[i as int]@);
                assert(rows(b@)[i as int] == b@[i as int]@);
            }
            return false;
        }
        proof {
            assert(rows(a@)[i as int] == a@[i as int]@);
            assert(rows(b@)[i as int] == b@[i as int]@);
        }
        i += 1;
    }
    true
}

/// Whether `path` lies at or under `base`.
pub fn starts_with(path: &str, base: &str) -> (r: bool)
    ensures
        r == path_starts_with(path@, base@),
{
    if starts_at_root(path) != starts_at_root(base) {
        return false;
    }
    let p = split(path);
    let b = split(base);
    parts_lead(&b, &p)
}

/// Replaces the extension of the file name that `parts` ends in by `ext`.
pub fn set_extension(parts: &mut Vec<Vec<char>>, ext: &Vec<char>)
    ensures
        rows(final(parts)@) == with_extension(rows(old(parts)@), ext@),
{
    match name_index(parts) {
        Some(i) => {
            let ghost before = parts@;
            let old_name = parts.pop().unwrap();
            let mut name: Vec<char> = Vec::new();
            let keep = match find_last_dot(&old_name) {
                Some(d) => if d == 0 {
                    old_name.len()
                } else {
                    d
                },
                None => old_name.len(),
            };
            let mut k: usize = 0;
            while k < keep
                invariant
                    keep <= old_name.len(),
                    0 <= k <= keep,
                    name@ == old_name@.take(k as int),
                decreases keep - k,
            {
                name.push(old_name[k]);
                proof {
                    assert(old_name@.take(k + 1) =~= old_name@.take(k as int).push(old_name@[k as int]));
                }
                k += 1;
            }
            proof {
                assert(old_name@.take(old_name@.len() as int) =~= old_name@);
                assert(name@ == stem_of(old_name@));
            }
            name.push('.');
            let ghost dotted = name@;
            let mut e: usize = 0;
            while e < ext.len()
                invariant
                    0 <= e <= ext.len(),
                    name@ == dotted + ext@.take(e as int),
                decreases ext.len() - e,
            {
                name.push(ext[e]);
                proof {
                    assert(ext@.take(e + 1) =~= ext@.take(e as int).push(ext@[e as int]));
                    assert(name@ =~= dotted + ext@.take(e + 1));
                }
                e += 1;
            }
            proof {
                assert(ext@.take(ext@.len() as int) =~= ext@);
                assert(name@ == renamed(old_name@, ext@));
                assert(rows(before).last() == old_name@);
                assert(rows(parts@) =~= rows(before).drop_last());
                assert(rows(parts@.push(name)) =~= rows(parts@).push(name@));
            }
            parts.push(name);
        },
        None => {},
    }
}

fn artifact_extension_chars() -> (v: Vec<char>)
    ensures
        v@ == artifact_extension(),
{
    let v = vec!['m', 'o', 'd', 'e', 'l', '.', 'j', 's', 'o', 'n'];
    proof {
        assert(v@ =~= artifact_extension());
    }
    v
}

/// Appends the components of `from` from position `start` on to `to`.
fn extend_from(to: &mut Vec<Vec<char>>, from: &Vec<Vec<char>>, start: usize)
    requires
        start <= from@.len(),
    ensures
        rows(final(to)@) == rows(old(to)@) + rows(from@).skip(start as int),
{
    let ghost base = rows(to@);
    let mut i: usize = start;
    proof {
        assert(rows(to@) =~= base + rows(from@).subrange(start as int, i as int));
    }
    while i < from.len()
        invariant
            start <= i <= from.len(),
            rows(to@) == base + rows(from@).subrange(start as int, i as int),
        decreases from.len() - i,
    {
        let ghost before = to@;
        to.push(from[i].clone());
        proof {
            assert(rows(to@) =~= rows(before).push(from@[i as int]@));
            assert(rows(from@).subrange(start as int, i + 1) =~= rows(from@).subrange(
                start as int,
                i as int,
            ).push(from@[i as int]@));
            assert(rows(to@) =~= base + rows(from@).subrange(start as int, i + 1));
        }
        i += 1;
    }
    proof {
        assert(rows(from@).subrange(start as int, from@.len() as int) =~= rows(from@).skip(
            start as int,
        ));
    }
}

/// Where the artifact of the source `path` goes when sources under `input`
/// are built into `output`.
pub fn output_path(input: &str, output: &str, path: &str) -> (r: Option<String>)
    ensures
        r is Some == path_starts_with(path@, input@),
        match r {
            Some(out) => Some(out@) == artifact_path(input@, output@, path@),
            None => artifact_path(input@, output@, path@) is None,
        },
{
    if starts_at_root(path) != starts_at_root(input) {
        return None;
    }
    let p = split(path);
    let i = split(input);
    if !parts_lead(&i, &p) {
        return None;
    }
    let mut parts = split(output);
    extend_from(&mut parts, &p, i.len());
    set_extension(&mut parts, &artifact_extension_chars());
    Some(render(starts_at_root(output), &parts))
}

/// `path` relative to `base`, where it lies at or under `base`.
pub fn relative_to(path: &str, base: &str) -> (r: Option<String>)
    ensures
        match r {
            Some(rel) => Some(rel@) == relative_path(path@, base@),
            None => relative_path(path@, base@) is None,
        },
{
    if starts_at_root(path) != starts_at_root(base) {
        return None;
    }
    let p = split(path);
    let b = split(base);
    if !parts_lead(&b, &p) {
        return None;
    }
    let mut parts: Vec<Vec<char>> = Vec::new();
    proof {
        assert(rows(parts@) =~= Seq::<Seq<char>>::empty());
    }
    extend_from(&mut parts, &p, b.len());
    proof {
        assert(Seq::<Seq<char>>::empty() + rows(p@).skip(b@.len() as int) =~= rows(p@).skip(
            b@.len() as int,
        ));
    }
    Some(render(false, &parts))
}

/// The normal form of the path that `text` spells.
pub fn normalize_chars(text: &Vec<char>) -> (r: String)
    ensures
        r@ == normalized(text@),
{
    let absolute = text.len() > 0 && text[0] == '/';
    let parts = split_chars(text);
    let kept = resolve(parts, absolute);
    render(absolute, &kept)
}

/// `rel` seen from `base`: an absolute `rel` stands for itself, any other
/// is appended to `base`, after a `/` where `base` does not end in one.
pub open spec fn joined_paths(base: Seq<char>, rel: Seq<char>) -> Seq<char> {
    if is_absolute(rel) {
        rel
    } else if base.len() == 0 || base.last() == '/' {
        base + rel
    } else {
        base.push('/') + rel
    }
}

/// The suffix by which a derive reference names a source file.
pub open spec fn source_suffix() -> Seq<char> {
    seq!['.', 'r', 's', 'm', 'l']
}

/// The file that the derive reference `derive` points at, seen from
/// `parent`: the reference gets the source suffix where it lacks it, is
/// joined to `parent`, and the result is brought into normal form.
pub open spec fn derive_target(derive: Seq<char>, parent: Seq<char>) -> Seq<char> {
    let named = if ends_with(derive, source_suffix()) {
        derive
    } else {
        derive + source_suffix()
    };
    normalized(joined_paths(parent, named))
}

/// Appends the characters of `tail` to `text`.
fn append_chars(text: &mut Vec<char>, tail: &Vec<char>)
    ensures
        final(text)@ == old(text)@ + tail@,
{
    let ghost base = text@;
    let mut i: usize = 0;
    proof {
        assert(text@ =~= base + tail@.take(0));
    }
    while i < tail.len()
        invariant
            0 <= i <= tail.len(),
            text@ == base + tail@.take(i as int),
        decreases tail.len() - i,
    {
        text.push(tail[i]);
        proof {
            assert(tail@.take(i + 1) =~= tail@.take(i as int).push(tail@[i as int]));
            assert(text@ =~= base + tail@.take(i + 1));
        }
        i += 1;
    }
    proof {
        assert(tail@.take(tail@.len() as int) =~= tail@);
    }
}

/// `rel` seen from `base`.
pub fn join_chars(base: &Vec<char>, rel: &Vec<char>) -> (r: Vec<char>)
    ensures
        r@ == joined_paths(base@, rel@),
{
    if rel.len() > 0 && rel[0] == '/' {
        return rel.clone();
    }
    let mut r = base.clone();
    if base.len() > 0 && base[base.len() - 1] != '/' {
        r.push('/');
    }
    append_chars(&mut r, rel);
    r
}

/// `rel` seen from `base`.
pub fn join(base: &str, rel: &str) -> (r: String)
    ensures
        r@ == joined_paths(base@, rel@),
{
    string_of(&join_chars(&chars_of(base), &chars_of(rel)))
}

/// The file that the derive reference `derive` points at, seen from
/// `parent_path`.
pub fn derive_to_path_buf(derive: &str, parent_path: &str) -> (r: String)
    ensures
        r@ == derive_target(derive@, parent_path@),
{
    let mut named = chars_of(derive);
    let suffix = vec!['.', 'r', 's', 'm', 'l'];
    proof {
        assert(suffix@ =~= source_suffix());
    }
    if !has_suffix(&named, &suffix) {
        append_chars(&mut named, &suffix);
    }
    normalize_chars(&join_chars(&chars_of(parent_path), &named))
}

/// The stem of the file name of a path, where it has a file name.
pub open spec fn file_stem_of(path: Seq<char>) -> Option<Seq<char>> {
    match file_name_of(path) {
        Some(name) => Some(stem_of(name)),
        None => None,
    }
}

/// The file name of `path` without its extension.
pub fn file_stem(path: &str) -> (r: Option<String>)
    ensures
        match r {
            Some(stem) => Some(stem@) == file_stem_of(path@),
            None => file_stem_of(path@) is None,
        },
{
    let parts = split(path);
    match name_index(&parts) {
        Some(i) => {
            proof {
                assert(rows(parts@).last() == parts@[i as int]@);
            }
            let name = &parts[i];
            let keep = match find_last_dot(name) {
                Some(d) => if d == 0 {
                    name.len()
                } else {
                    d
                },
                None => name.len(),
            };
            let mut stem: Vec<char> = Vec::new();
            let mut k: usize = 0;
            while k < keep
                invariant
                    keep <= name.len(),
                    0 <= k <= keep,
                    stem@ == name@.take(k as int),
                decreases keep - k,
            {
                stem.push(name[k]);
                proof {
                    assert(name@.take(k + 1) =~= name@.take(k as int).push(name@[k as int]));
                }
                k += 1;
            }
            proof {
                assert(name@.take(name@.len() as int) =~= name@);
            }
            Some(string_of(&stem))
        },
        None => None,
    }
}

/// The artifact named after `path` that stands beside it.
pub open spec fn sibling_artifact(path: Seq<char>) -> Seq<char> {
    rendered(is_absolute(path), with_extension(components(path), artifact_extension()))
}

/// The artifact named after `path` that stands beside it.
pub fn sibling_artifact_path(path: &str) -> (r: String)
    ensures
        r@ == sibling_artifact(path@),
{
    let mut parts = split(path);
    set_extension(&mut parts, &artifact_extension_chars());
    render(starts_at_root(path), &parts)
}

} // verus!
