//! The derive references of a source file: which files they point at, and
//! the walk over everything that a file derives from, directly or through
//! another file.

use vstd::prelude::*;
use crate::path::derive_target;
use crate::path::derive_to_path_buf;
use crate::side::lemma_texts_push;
use crate::side::position;
use crate::side::texts;

verus! {

/// The derive references that a source text declares, in the order in which
/// they first occur, each once.
pub uninterp spec fn declared_derives(content: Seq<char>) -> Seq<Seq<char>>;

/// `rbx_rsml::parse_rsml_derives` on the tokens that
/// `rbx_rsml::lex_rsml_derives` makes of the text. The parser collects the
/// references in a set that keeps the order of insertion; they are handed on
/// in that order. What the references of a given text are is taken from the
/// parser and not stated here.
#[verifier::external_body]
fn parse_derives(content: &str) -> (derives: Vec<String>)
    ensures
        texts(derives@) == declared_derives(content@),
{
    rbx_rsml::parse_rsml_derives(&mut rbx_rsml::lex_rsml_derives(content)).into_iter().collect()
}

/// The files that the references `derives`, found in the file `path`, point
/// at. A reference is resolved against the path of the file that holds it.
pub open spec fn targets(derives: Seq<Seq<char>>, path: Seq<char>) -> Seq<Seq<char>> {
    derives.map_values(|d: Seq<char>| derive_target(d, path))
}

/// The files that the references `derives`, found in the file `path`, point
/// at, in the order of the references.
pub fn resolve_derives(derives: &Vec<String>, path: &str) -> (files: Vec<String>)
    ensures
        texts(files@) == targets(texts(derives@), path@),
{
    let mut files: Vec<String> = Vec::new();
    let mut i: usize = 0;
    proof {
        assert(texts(files@) =~= targets(texts(derives@), path@).take(0));
    }
    while i < derives.len()
        invariant
            0 <= i <= derives.len(),
            texts(files@) == targets(texts(derives@), path@).take(i as int),
        decreases derives.len() - i,
    {
        let ghost before = files@;
        let file = derive_to_path_buf(derives[i].as_str(), path);
        proof {
            lemma_texts_push(before, file);
            let all = targets(texts(derives@), path@);
            assert(all[i as int] == file@);
            assert(all.take(i + 1) =~= all.take(i as int).push(file@));
        }
        files.push(file);
        i += 1;
    }
    proof {
        let all = targets(texts(derives@), path@);
        assert(all.take(all.len() as int) =~= all);
    }
    files
}

/// The files that the source text `content` of the file `path` derives
/// from, in the order of its references.
pub fn derives_of(content: &str, path: &str) -> (files: Vec<String>)
    ensures
        texts(files@) == targets(declared_derives(content@), path@),
{
    let derives = parse_derives(content);
    resolve_derives(&derives, path)
}

/// The walk over all that one file derives from. The files still to be read
/// wait on a stack, the next one on top; a file is handed out once, also
/// where files derive from one another in a circle.
#[derive(Debug)]
pub struct DeriveWalk {
    /// The file whose references started the walk.
    pub path: String,
    /// The files still to be read; the last one is next.
    pub pending: Vec<String>,
    /// The files handed out so far.
    pub visited: Vec<String>,
}

/// The greatest position below `k` of a pending file that was not handed
/// out yet, or -1.
pub open spec fn next_index(pending: Seq<Seq<char>>, visited: Seq<Seq<char>>, k: int) -> int
    decreases k,
{
    if k <= 0 {
        -1
    } else if !visited.contains(pending[k - 1]) {
        k - 1
    } else {
        next_index(pending, visited, k - 1)
    }
}

/// Appends the strings of `more` to `stack`, last first.
pub fn push_reversed(stack: &mut Vec<String>, more: &Vec<String>)
    ensures
        texts(final(stack)@) == texts(old(stack)@) + texts(more@).reverse(),
{
    let ghost base = texts(stack@);
    let ghost all = texts(more@).reverse();
    let mut k: usize = more.len();
    proof {
        assert(texts(stack@) =~= base + all.take(0));
    }
    while k > 0
        invariant
            0 <= k <= more.len(),
            all == texts(more@).reverse(),
            texts(stack@) == base + all.take(more.len() - k),
        decreases k,
    {
        let ghost before = stack@;
        proof {
            lemma_texts_push(before, more@[k - 1]);
            assert(all[more.len() - k] == more@[k - 1]@);
            assert(all.take(more.len() - k + 1) =~= all.take(more.len() - k).push(more@[k - 1]@));
            assert(texts(before).push(more@[k - 1]@) =~= base + all.take(more.len() - k + 1));
        }
        stack.push(more[k - 1].clone());
        k -= 1;
    }
    proof {
        assert(all.take(all.len() as int) =~= all);
    }
}

impl DeriveWalk {
    pub open spec fn wf(&self) -> bool {
        texts(self.visited@).no_duplicates()
    }

    /// The walk over what the file `path` with the source text `content`
    /// derives from: the files that its own references point at wait, the
    /// first reference on top.
    pub fn start(path: String, content: &str) -> (walk: Self)
        ensures
            walk.wf(),
            walk.path == path,
            texts(walk.visited@) == Seq::<Seq<char>>::empty(),
            texts(walk.pending@) == targets(declared_derives(content@), path@).reverse(),
    {
        let files = derives_of(content, path.as_str());
        let mut pending: Vec<String> = Vec::new();
        let visited: Vec<String> = Vec::new();
        proof {
            assert(texts(pending@) =~= Seq::<Seq<char>>::empty());
            assert(texts(visited@) =~= Seq::<Seq<char>>::empty());
            assert(Seq::<Seq<char>>::empty() + texts(files@).reverse() =~= texts(files@).reverse());
        }
        push_reversed(&mut pending, &files);
        DeriveWalk { path, pending, visited }
    }

    /// Hands out the next file to read: the topmost waiting file that was
    /// not handed out before. It and all above it leave the stack. With no
    /// such file the walk is over and the stack is empty.
    pub fn next(&mut self) -> (file: Option<String>)
        requires
            old(self).wf(),
        ensures
            final(self).wf(),
            final(self).path == old(self).path,
            ({
                let k = next_index(
                    texts(old(self).pending@),
                    texts(old(self).visited@),
                    old(self).pending@.len() as int,
                );
                match file {
                    Some(f) => {
                        &&& 0 <= k < old(self).pending@.len()
                        &&& f@ == old(self).pending@[k]@
                        &&& texts(final(self).pending@) == texts(old(self).pending@).take(k)
                        &&& texts(final(self).visited@) == texts(old(self).visited@).push(f@)
                    },
                    None => {
                        &&& k == -1
                        &&& final(self).pending@.len() == 0
                        &&& final(self).visited == old(self).visited
                    },
                }
            }),
    {
        let ghost start = texts(self.pending@);
        let ghost seen = texts(self.visited@);
        loop
            invariant
                self.path == old(self).path,
                self.visited == old(self).visited,
                seen == texts(self.visited@),
                seen.no_duplicates(),
                start == texts(old(self).pending@),
                self.pending@.len() <= start.len(),
                texts(self.pending@) == start.take(self.pending@.len() as int),
                next_index(start, seen, start.len() as int) == next_index(
                    start,
                    seen,
                    self.pending@.len() as int,
                ),
            decreases self.pending@.len(),
        {
            let ghost n = self.pending@.len() as int;
            match self.pending.pop() {
                Some(f) => {
                    proof {
                        assert(start.take(n)[n - 1] == f@);
                        assert(texts(self.pending@) =~= start.take(n - 1));
                    }
                    let found = position(&self.visited, &f);
                    if found.is_none() {
                        let ghost before = self.visited@;
                        proof {
                            lemma_texts_push(before, f);
                        }
                        self.visited.push(f.clone());
                        return Some(f);
                    }
                    proof {
                        let at = found.unwrap() as int;
                        assert(seen[at] == f@);
                        assert(seen.contains(start[n - 1]));
                    }
                },
                None => {
                    return None;
                },
            }
        }
    }

    /// Takes in the references found in the file that was handed out last:
    /// the files they point at wait on top of the stack, the first reference
    /// topmost.
    pub fn feed_derives(&mut self, derives: &Vec<String>)
        requires
            old(self).wf(),
        ensures
            final(self).wf(),
            final(self).path == old(self).path,
            final(self).visited == old(self).visited,
            texts(final(self).pending@) == texts(old(self).pending@) + targets(
                texts(derives@),
                old(self).path@,
            ).reverse(),
    {
        let files = resolve_derives(derives, self.path.as_str());
        push_reversed(&mut self.pending, &files);
    }

    /// Takes in the source text of the file that was handed out last.
    pub fn feed(&mut self, content: &str)
        requires
            old(self).wf(),
        ensures
            final(self).wf(),
            final(self).path == old(self).path,
            final(self).visited == old(self).visited,
            texts(final(self).pending@) == texts(old(self).pending@) + targets(
                declared_derives(content@),
                old(self).path@,
            ).reverse(),
    {
        let derives = parse_derives(content);
        self.feed_derives(&derives);
    }
}

} // verus!
