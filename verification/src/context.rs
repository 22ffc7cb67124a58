//! The build context: the roots, the dependency graph and the bound
//! configuration, with the decisions that turn a change on disk into
//! recompilations. Reading, compiling and writing are the caller's part:
//! each function here says what is to be done and keeps the graph in step.

use vstd::prelude::*;
use crate::luaurc::Aliases;
use crate::luaurc::differs_at;
use crate::luaurc::Luaurc;
use crate::multibimap::lemma_without_lefts_of_keys;
use crate::multibimap::lemma_without_rights_of_keys;
use crate::multibimap::MultiBiMap;
use crate::path::artifact_path;
use crate::path::output_path;
use crate::path::path_starts_with;
use crate::path::sibling_artifact;
use crate::path::sibling_artifact_path;
use crate::path::starts_with;
use crate::relation::Op;
use crate::relation::Relation;
use crate::side::Entry;
use crate::side::lemma_listed_all;
use crate::side::lemma_listed_grows;
use crate::side::lemma_seq_push_contains;
use crate::side::lemma_texts_push;
use crate::side::listed;
use crate::side::listed_set;
use crate::side::position;
use crate::side::side_has;
use crate::side::side_keys;
use crate::side::texts;

verus! {

/// The state that every build and every watched change works on. In the
/// dependency graph a left key is a file that is derived from and a right
/// key is a file that derives from it.
#[derive(Debug)]
pub struct WatcherContext {
    pub input_dir: String,
    pub output_dir: String,
    pub dependencies: MultiBiMap,
    pub luaurc: Option<(String, Luaurc)>,
}

/// What is to be taken off the disk when a source file is gone.
#[derive(Debug)]
pub struct Removal {
    /// The artifact that was built from the file, where the file lies under
    /// the input root.
    pub artifact: Option<String>,
    /// The artifact that an earlier naming would have placed beside the file.
    pub legacy: String,
}

impl WatcherContext {
    pub open spec fn wf(&self) -> bool {
        &&& self.dependencies.wf()
        &&& self.luaurc matches Some(bound) ==> bound.1.wf()
    }

    /// The files that consulted the alias `alias` when last compiled; none
    /// where no configuration is bound.
    pub open spec fn alias_users(&self, alias: Seq<char>) -> Set<Seq<char>> {
        match self.luaurc {
            Some(bound) => bound.1.dependants.0.rights_of(alias),
            None => Set::empty(),
        }
    }

    /// A context over the given roots with an empty dependency graph.
    pub fn new(input_dir: String, output_dir: String, luaurc: Option<(String, Luaurc)>) -> (c: Self)
        requires
            luaurc matches Some(bound) ==> bound.1.wf(),
        ensures
            c.wf(),
            c.input_dir == input_dir,
            c.output_dir == output_dir,
            c.luaurc == luaurc,
            c.dependencies.model() == (Relation {
                lefts: Set::empty(),
                rights: Set::empty(),
                edges: Set::empty(),
            }),
    {
        WatcherContext { input_dir, output_dir, dependencies: MultiBiMap::new(), luaurc }
    }

    /// Where the artifact of the source `path` is written.
    pub fn output_for(&self, path: &str) -> (r: Option<String>)
        ensures
            r is Some == path_starts_with(path@, self.input_dir@),
            match r {
                Some(out) => Some(out@) == artifact_path(self.input_dir@, self.output_dir@, path@),
                None => artifact_path(self.input_dir@, self.output_dir@, path@) is None,
            },
    {
        output_path(self.input_dir.as_str(), self.output_dir.as_str(), path)
    }

    /// Forgets what `path` derived from, before it is compiled anew: every
    /// pair in which `path` is the dependent goes.
    pub fn begin_compile(&mut self, path: &String)
        requires
            old(self).wf(),
        ensures
            final(self).wf(),
            final(self).input_dir == old(self).input_dir,
            final(self).output_dir == old(self).output_dir,
            final(self).luaurc == old(self).luaurc,
            final(self).dependencies.model() == old(self).dependencies.model().without_rights(
                set![path@],
            ),
    {
        self.dependencies.remove_by_right(path.clone());
    }

    /// Records that `dependant` derives from `antecedent`.
    pub fn record_derive(&mut self, antecedent: String, dependant: String)
        requires
            old(self).wf(),
        ensures
            final(self).wf(),
            final(self).input_dir == old(self).input_dir,
            final(self).output_dir == old(self).output_dir,
            final(self).luaurc == old(self).luaurc,
            final(self).dependencies.edges() == old(self).dependencies.edges().insert(
                (antecedent@, dependant@),
            ),
            final(self).dependencies.left_keys() == old(self).dependencies.left_keys().insert(
                antecedent@,
            ),
            final(self).dependencies.right_keys() == old(self).dependencies.right_keys().insert(
                dependant@,
            ),
            final(self).dependencies.model() == old(self).dependencies.model().applied(
                Op::Insert(antecedent@, dependant@),
            ),
    {
        let _ = self.dependencies.insert(antecedent, dependant);
    }

    /// Records that `dependant` derives from each of `antecedents`.
    pub fn record_derives(&mut self, antecedents: &Vec<String>, dependant: &String)
        requires
            old(self).wf(),
        ensures
            final(self).wf(),
            final(self).input_dir == old(self).input_dir,
            final(self).output_dir == old(self).output_dir,
            final(self).luaurc == old(self).luaurc,
            final(self).dependencies.model() == old(self).dependencies.model().with_derives(
                dependant@,
                texts(antecedents@),
                antecedents@.len() as int,
            ),
    {
        let mut i: usize = 0;
        while i < antecedents.len()
            invariant
                0 <= i <= antecedents.len(),
                self.wf(),
                self.input_dir == old(self).input_dir,
                self.output_dir == old(self).output_dir,
                self.luaurc == old(self).luaurc,
                self.dependencies.model() == old(self).dependencies.model().with_derives(
                    dependant@,
                    texts(antecedents@),
                    i as int,
                ),
            decreases antecedents.len() - i,
        {
            proof {
                assert(texts(antecedents@)[i as int] == antecedents@[i as int]@);
            }
            self.record_derive(antecedents[i].clone(), dependant.clone());
            i += 1;
        }
    }

    /// The path of the bound configuration file.
    pub open spec fn config_path(&self) -> Option<Seq<char>> {
        match self.luaurc {
            Some(bound) => Some(bound.0@),
            None => None,
        }
    }

    /// The alias table in force; empty where no configuration is bound.
    pub open spec fn alias_table(&self) -> Map<Seq<char>, Seq<char>> {
        match self.luaurc {
            Some(bound) => bound.1.aliases@,
            None => Map::empty(),
        }
    }

    /// Which file consulted which alias; empty where no configuration is
    /// bound.
    pub open spec fn alias_graph(&self) -> Relation {
        match self.luaurc {
            Some(bound) => bound.1.dependants.0.model(),
            None => Relation { lefts: Set::empty(), rights: Set::empty(), edges: Set::empty() },
        }
    }

    /// Records that compiling `dependant` consulted the alias `alias`. Without
    /// a bound configuration nothing is recorded.
    pub fn record_alias(&mut self, alias: String, dependant: String)
        requires
            old(self).wf(),
        ensures
            final(self).wf(),
            final(self).input_dir == old(self).input_dir,
            final(self).output_dir == old(self).output_dir,
            final(self).dependencies == old(self).dependencies,
            final(self).config_path() == old(self).config_path(),
            final(self).alias_table() == old(self).alias_table(),
            old(self).luaurc is Some ==> final(self).alias_graph() == (Relation {
                lefts: old(self).alias_graph().lefts.insert(alias@),
                rights: old(self).alias_graph().rights.insert(dependant@),
                edges: old(self).alias_graph().edges.insert((alias@, dependant@)),
            }),
            old(self).luaurc is None ==> final(self).luaurc is None,
    {
        match &mut self.luaurc {
            Some(bound) => {
                let _ = bound.1.dependants.0.insert(alias, dependant);
            },
            None => {},
        }
    }

    /// The files to compile after `path` was compiled: those that derive
    /// from `path`, but for `referent`, the file whose own compilation led to
    /// this one.
    pub fn dependants_to_rebuild(&self, path: &String, referent: Option<&String>) -> (files: Vec<
        String,
    >)
        requires
            self.wf(),
        ensures
            texts(files@).no_duplicates(),
            texts(files@).to_set() == match referent {
                Some(f) => self.dependencies.rights_of(path@).remove(f@),
                None => self.dependencies.rights_of(path@),
            },
    {
        let mut files: Vec<String> = Vec::new();
        proof {
            assert(texts(files@) =~= Seq::<Seq<char>>::empty());
        }
        match self.dependencies.get_by_left(path) {
            Some(all) => {
                let mut i: usize = 0;
                while i < all.len()
                    invariant
                        0 <= i <= all.len(),
                        texts(all@).no_duplicates(),
                        texts(files@).no_duplicates(),
                        forall|k: Seq<char>| #[trigger]
                            texts(files@).contains(k) <==> (exists|j: int|
                                0 <= j < i && #[trigger] texts(all@)[j] == k) && !(referent matches Some(
                                f,
                            ) && f@ == k),
                    decreases all.len() - i,
                {
                    let skip = match referent {
                        Some(f) => all[i] == *f,
                        None => false,
                    };
                    let ghost before = files@;
                    let ghost cur = texts(all@)[i as int];
                    proof {
                        assert(cur == all@[i as int]@);
                    }
                    if !skip {
                        proof {
                            if texts(before).contains(cur) {
                                let j = choose|j: int| 0 <= j < i && #[trigger] texts(all@)[j] == cur;
                            }
                            lemma_texts_push(before, all@[i as int]);
                        }
                        files.push(all[i].clone());
                    }
                    proof {
                        assert forall|k: Seq<char>| #[trigger]
                            texts(files@).contains(k) <==> (exists|j: int|
                                0 <= j < i + 1 && #[trigger] texts(all@)[j] == k) && !(referent matches Some(
                                f,
                            ) && f@ == k) by {
                            if !skip {
                                lemma_seq_push_contains(texts(before), cur, k);
                            }
                            if exists|j: int| 0 <= j < i + 1 && #[trigger] texts(all@)[j] == k {
                                let j = choose|j: int| 0 <= j < i + 1 && #[trigger] texts(all@)[j] == k;
                                if j < i {
                                    assert(texts(all@)[j] == k);
                                }
                            }
                            if exists|j: int| 0 <= j < i && #[trigger] texts(all@)[j] == k {
                                let j = choose|j: int| 0 <= j < i && #[trigger] texts(all@)[j] == k;
                                assert(0 <= j < i + 1 && texts(all@)[j] == k);
                            }
                            if k == cur {
                                assert(texts(all@)[i as int] == k);
                            }
                        }
                    }
                    i += 1;
                }
                proof {
                    let goal = match referent {
                        Some(f) => self.dependencies.rights_of(path@).remove(f@),
                        None => self.dependencies.rights_of(path@),
                    };
                    assert forall|k: Seq<char>| texts(files@).to_set().contains(k) == goal.contains(
                        k,
                    ) by {
                        let t = texts(all@);
                        if t.contains(k) {
                            let j = choose|j: int| 0 <= j < t.len() && t[j] == k;
                            assert(0 <= j < all@.len() && t[j] == k);
                        }
                        if exists|j: int| 0 <= j < all@.len() && #[trigger] t[j] == k {
                            let j = choose|j: int| 0 <= j < all@.len() && #[trigger] t[j] == k;
                            assert(t.contains(k));
                        }
                    }
                    assert(texts(files@).to_set() =~= goal);
                }
            },
            None => {
                proof {
                    let goal = match referent {
                        Some(f) => self.dependencies.rights_of(path@).remove(f@),
                        None => self.dependencies.rights_of(path@),
                    };
                    assert(texts(files@).to_set() =~= goal);
                }
            },
        }
        files
    }

    /// Takes a new version of the alias table into force and names the files
    /// to recompile: those that consulted an alias on which the two versions
    /// differ. The record of who consulted what stays. Without a bound
    /// configuration nothing happens.
    pub fn luaurc_update(&mut self, new_aliases: Aliases) -> (files: Vec<String>)
        requires
            old(self).wf(),
            new_aliases.wf(),
        ensures
            final(self).wf(),
            final(self).input_dir == old(self).input_dir,
            final(self).output_dir == old(self).output_dir,
            final(self).dependencies == old(self).dependencies,
            final(self).config_path() == old(self).config_path(),
            final(self).alias_graph() == old(self).alias_graph(),
            old(self).luaurc is Some ==> final(self).alias_table() == new_aliases@,
            old(self).luaurc is None ==> final(self).luaurc is None,
            texts(files@).no_duplicates(),
            forall|f: Seq<char>| #[trigger]
                texts(files@).contains(f) <==> exists|k: Seq<char>|
                    differs_at(old(self).alias_table(), new_aliases@, k) && #[trigger] old(
                        self,
                    ).alias_users(k).contains(f),
    {
        match &mut self.luaurc {
            Some(bound) => {
                let changed = bound.1.aliases.diff(&new_aliases);
                let files = users_of(&bound.1.dependants.0, &changed);
                proof {
                    let graph = bound.1.dependants.0;
                    let was = old(self).alias_table();
                    assert(was == bound.1.aliases@);
                    assert forall|k: Seq<char>| #[trigger] old(self).alias_users(k) == graph.rights_of(k) by {}
                    assert forall|f: Seq<char>| #[trigger]
                        texts(files@).contains(f) <==> exists|k: Seq<char>|
                            differs_at(was, new_aliases@, k) && #[trigger] old(self).alias_users(
                                k,
                            ).contains(f) by {
                        if affected(graph, changed@, changed@.len() as int, f) {
                            let c = choose|c: int|
                                0 <= c < changed@.len() && c < changed@.len() && graph.rights_of(
                                    (#[trigger] changed@[c])@,
                                ).contains(f);
                            let k = changed@[c]@;
                            assert(texts(changed@)[c] == k);
                            assert(texts(changed@).contains(k));
                            assert(old(self).alias_users(k) == graph.rights_of(k));
                            assert(differs_at(was, new_aliases@, k) && old(self).alias_users(
                                k,
                            ).contains(f));
                        }
                        if exists|k: Seq<char>|
                            differs_at(was, new_aliases@, k) && #[trigger] old(self).alias_users(
                                k,
                            ).contains(f) {
                            let k = choose|k: Seq<char>|
                                differs_at(was, new_aliases@, k) && #[trigger] old(self).alias_users(
                                    k,
                                ).contains(f);
                            assert(old(self).alias_users(k) == graph.rights_of(k));
                            assert(texts(changed@).contains(k));
                            let c = choose|c: int| 0 <= c < texts(changed@).len() && texts(changed@)[c] == k;
                            assert(changed@[c]@ == k);
                            assert(affected(graph, changed@, changed@.len() as int, f));
                        }
                    }
                }
                bound.1.aliases = new_aliases;
                files
            },
            None => {
                let files: Vec<String> = Vec::new();
                proof {
                    assert(texts(files@) =~= Seq::<Seq<char>>::empty());
                }
                files
            },
        }
    }

    /// The configuration file is gone: the alias table is emptied, the
    /// record of who consulted what stays, and nothing is recompiled.
    pub fn luaurc_removed(&mut self)
        requires
            old(self).wf(),
        ensures
            final(self).wf(),
            final(self).input_dir == old(self).input_dir,
            final(self).output_dir == old(self).output_dir,
            final(self).dependencies == old(self).dependencies,
            final(self).config_path() == old(self).config_path(),
            final(self).alias_graph() == old(self).alias_graph(),
            final(self).alias_table() == Map::<Seq<char>, Seq<char>>::empty(),
    {
        match &mut self.luaurc {
            Some(bound) => {
                bound.1.aliases = Aliases::empty();
            },
            None => {},
        }
    }

    /// The source file `path` is gone: every pair in which it is derived
    /// from goes, and with a bound configuration every record of an alias
    /// that it consulted. The result names the files to take off the disk.
    pub fn delete_file(&mut self, path: &String) -> (removal: Removal)
        requires
            old(self).wf(),
        ensures
            final(self).wf(),
            final(self).input_dir == old(self).input_dir,
            final(self).output_dir == old(self).output_dir,
            final(self).config_path() == old(self).config_path(),
            final(self).alias_table() == old(self).alias_table(),
            final(self).dependencies.model() == old(self).dependencies.model().without_lefts(
                set![path@],
            ),
            final(self).alias_graph() == old(self).alias_graph().without_rights(set![path@]),
            match removal.artifact {
                Some(a) => Some(a@) == artifact_path(
                    old(self).input_dir@,
                    old(self).output_dir@,
                    path@,
                ),
                None => artifact_path(old(self).input_dir@, old(self).output_dir@, path@) is None,
            },
            removal.legacy@ == sibling_artifact(path@),
    {
        self.dependencies.remove_by_left(path.clone());
        match &mut self.luaurc {
            Some(bound) => {
                bound.1.dependants.0.remove_by_right(path.clone());
            },
            None => {
                proof {
                    let none = Relation {
                        lefts: Set::empty(),
                        rights: Set::empty(),
                        edges: Set::empty(),
                    };
                    assert(none.without_rights(set![path@]).lefts =~= none.lefts);
                    assert(none.without_rights(set![path@]).rights =~= none.rights);
                    assert(none.without_rights(set![path@]).edges =~= none.edges);
                }
            },
        }
        let artifact = self.output_for(path.as_str());
        let legacy = sibling_artifact_path(path.as_str());
        Removal { artifact, legacy }
    }

    /// Something at `deleted_path` is gone, a file or a whole directory: in
    /// the dependency graph every key of either side at or under it goes, and
    /// with a bound configuration every file at or under it goes from the
    /// record of alias use.
    pub fn prune_dependencies(&mut self, deleted_path: &String)
        requires
            old(self).wf(),
        ensures
            final(self).wf(),
            final(self).input_dir == old(self).input_dir,
            final(self).output_dir == old(self).output_dir,
            final(self).config_path() == old(self).config_path(),
            final(self).alias_table() == old(self).alias_table(),
            final(self).dependencies.model() == old(self).dependencies.model().without_lefts(
                under(deleted_path@),
            ).without_rights(under(deleted_path@)),
            final(self).alias_graph() == old(self).alias_graph().without_rights(
                under(deleted_path@),
            ),
    {
        prune_lefts(&mut self.dependencies, deleted_path);
        prune_rights(&mut self.dependencies, deleted_path);
        match &mut self.luaurc {
            Some(bound) => {
                prune_rights(&mut bound.1.dependants.0, deleted_path);
            },
            None => {
                proof {
                    let none = Relation {
                        lefts: Set::empty(),
                        rights: Set::empty(),
                        edges: Set::empty(),
                    };
                    let gone = under(deleted_path@);
                    assert(none.without_rights(gone).lefts =~= none.lefts);
                    assert(none.without_rights(gone).rights =~= none.rights);
                    assert(none.without_rights(gone).edges =~= none.edges);
                }
            },
        }
    }
}

/// The paths that lie at or under `base`.
pub open spec fn under(base: Seq<char>) -> Set<Seq<char>> {
    Set::new(|k: Seq<char>| path_starts_with(k, base))
}

/// The keys of one direction that lie at or under `base`.
pub fn keys_under(side: &Vec<Entry>, base: &String) -> (keys: Vec<String>)
    ensures
        forall|k: Seq<char>| #[trigger]
            texts(keys@).contains(k) <==> side_has(side@, k) && path_starts_with(
                k,
                base@,
            ),
{
    let mut keys: Vec<String> = Vec::new();
    let mut i: usize = 0;
    proof {
        assert(texts(keys@) =~= Seq::<Seq<char>>::empty());
    }
    while i < side.len()
        invariant
            0 <= i <= side.len(),
            forall|k: Seq<char>| #[trigger]
                texts(keys@).contains(k) <==> path_starts_with(k, base@) && exists|j: int|
                    0 <= j < i && (#[trigger] side@[j]).key@ == k,
        decreases side.len() - i,
    {
        let ghost before = keys@;
        if starts_with(side[i].key.as_str(), base.as_str()) {
            keys.push(side[i].key.clone());
            proof {
                lemma_texts_push(before, side@[i as int].key);
            }
        }
        proof {
            let hit = path_starts_with(side@[i as int].key@, base@);
            let kt = side@[i as int].key@;
            assert forall|k: Seq<char>| #[trigger]
                texts(keys@).contains(k) <==> path_starts_with(k, base@) && exists|j: int|
                    0 <= j < i + 1 && (#[trigger] side@[j]).key@ == k by {
                let was = texts(before).contains(k);
                assert(was <==> path_starts_with(k, base@) && exists|j: int|
                    0 <= j < i && (#[trigger] side@[j]).key@ == k);
                if hit {
                    lemma_seq_push_contains(texts(before), kt, k);
                }
                if exists|j: int| 0 <= j < i + 1 && (#[trigger] side@[j]).key@ == k {
                    let j = choose|j: int| 0 <= j < i + 1 && (#[trigger] side@[j]).key@ == k;
                    if j < i {
                        assert(side@[j].key@ == k);
                    }
                }
                if exists|j: int| 0 <= j < i && (#[trigger] side@[j]).key@ == k {
                    let j = choose|j: int| 0 <= j < i && (#[trigger] side@[j]).key@ == k;
                    assert(0 <= j < i + 1 && side@[j].key@ == k);
                }
                if k == kt {
                    assert(side@[i as int].key@ == k);
                }
            }
        }
        i += 1;
    }
    proof {
        assert forall|k: Seq<char>| #[trigger]
            texts(keys@).contains(k) <==> side_has(side@, k) && path_starts_with(
                k,
                base@,
            ) by {
            let sk = side_keys(side@);
            if sk.contains(k) {
                let j = choose|j: int| 0 <= j < sk.len() && sk[j] == k;
                assert(side@[j].key@ == k);
            }
            if exists|j: int| 0 <= j < side@.len() && (#[trigger] side@[j]).key@ == k {
                let j = choose|j: int| 0 <= j < side@.len() && (#[trigger] side@[j]).key@ == k;
                assert(sk[j] == k);
            }
        }
    }
    keys
}

/// Removes from `graph` the left keys that lie at or under `base`.
pub fn prune_lefts(graph: &mut MultiBiMap, base: &String)
    requires
        old(graph).wf(),
    ensures
        final(graph).wf(),
        final(graph).model() == old(graph).model().without_lefts(under(base@)),
        old(graph).populated() ==> final(graph).populated(),
{
    let keys = keys_under(&graph.left_to_right, base);
    proof {
        lemma_without_lefts_of_keys(*graph, texts(keys@).to_set(), under(base@));
    }
    graph.remove_lefts(&keys);
}

/// Removes from `graph` the right keys that lie at or under `base`.
pub fn prune_rights(graph: &mut MultiBiMap, base: &String)
    requires
        old(graph).wf(),
    ensures
        final(graph).wf(),
        final(graph).model() == old(graph).model().without_rights(under(base@)),
        old(graph).populated() ==> final(graph).populated(),
{
    let keys = keys_under(&graph.right_to_left, base);
    proof {
        lemma_without_rights_of_keys(*graph, texts(keys@).to_set(), under(base@));
    }
    graph.remove_rights(&keys);
}

/// One of the first `n` left keys in `keys` is related to `f`.
pub open spec fn affected(graph: MultiBiMap, keys: Seq<String>, n: int, f: Seq<char>) -> bool {
    exists|i: int| 0 <= i < n && i < keys.len() && graph.rights_of((#[trigger] keys[i])@).contains(f)
}

/// Adds to `files` the strings of `more` that it does not hold yet.
pub fn add_missing(files: &mut Vec<String>, more: &Vec<String>)
    requires
        texts(old(files)@).no_duplicates(),
    ensures
        texts(final(files)@).no_duplicates(),
        forall|f: Seq<char>| #[trigger]
            texts(final(files)@).contains(f) <==> texts(old(files)@).contains(f) || texts(
                more@,
            ).contains(f),
{
    let ghost start = texts(files@);
    let mut j: usize = 0;
    while j < more.len()
        invariant
            0 <= j <= more.len(),
            texts(files@).no_duplicates(),
            forall|f: Seq<char>| #[trigger]
                texts(files@).contains(f) <==> start.contains(f) || listed(
                    more@,
                    j as int,
                    f,
                ),
        decreases more.len() - j,
    {
        let ghost before = files@;
        let ghost cur = more@[j as int]@;
        let found = position(files, &more[j]);
        if found.is_none() {
            proof {
                lemma_texts_push(before, more@[j as int]);
            }
            files.push(more[j].clone());
        } else {
            proof {
                let at = found.unwrap() as int;
                assert(texts(before)[at] == cur);
            }
        }
        proof {
            lemma_listed_grows(more@, j as int);
            assert forall|f: Seq<char>| #[trigger]
                texts(files@).contains(f) <==> start.contains(f) || listed(
                    more@,
                    j + 1,
                    f,
                ) by {
                assert(listed_set(more@, j + 1).contains(f)
                    == listed_set(more@, j as int).insert(cur).contains(f));
                if found.is_none() {
                    lemma_seq_push_contains(texts(before), cur, f);
                }
            }
        }
        j += 1;
    }
    proof {
        lemma_listed_all(more@);
        assert forall|f: Seq<char>| #[trigger]
            texts(files@).contains(f) <==> start.contains(f) || texts(more@).contains(f) by {
            assert(listed_set(more@, more@.len() as int).contains(f) == texts(
                more@,
            ).to_set().contains(f));
        }
    }
}

/// The right keys related to any of the left keys in `keys`, each once.
pub fn users_of(graph: &MultiBiMap, keys: &Vec<String>) -> (files: Vec<String>)
    requires
        graph.wf(),
    ensures
        texts(files@).no_duplicates(),
        forall|f: Seq<char>| #[trigger]
            texts(files@).contains(f) <==> affected(*graph, keys@, keys@.len() as int, f),
{
    let mut files: Vec<String> = Vec::new();
    let mut i: usize = 0;
    proof {
        assert(texts(files@) =~= Seq::<Seq<char>>::empty());
    }
    while i < keys.len()
        invariant
            0 <= i <= keys.len(),
            graph.wf(),
            texts(files@).no_duplicates(),
            forall|f: Seq<char>| #[trigger]
                texts(files@).contains(f) <==> affected(*graph, keys@, i as int, f),
        decreases keys.len() - i,
    {
        let ghost before = texts(files@);
        let ghost more = graph.rights_of(keys@[i as int]@);
        match graph.get_by_left(&keys[i]) {
            Some(rights) => {
                add_missing(&mut files, rights);
            },
            None => {},
        }
        proof {
            assert forall|f: Seq<char>| #[trigger]
                texts(files@).contains(f) <==> affected(*graph, keys@, i + 1, f) by {
                assert(texts(files@).contains(f) <==> before.contains(f) || more.contains(f));
                assert(before.contains(f) <==> affected(*graph, keys@, i as int, f));
                if affected(*graph, keys@, i + 1, f) {
                    let c = choose|c: int|
                        0 <= c < i + 1 && c < keys@.len() && graph.rights_of(
                            (#[trigger] keys@[c])@,
                        ).contains(f);
                    if c < i {
                        assert(affected(*graph, keys@, i as int, f));
                    }
                }
                if affected(*graph, keys@, i as int, f) {
                    let c = choose|c: int|
                        0 <= c < i && c < keys@.len() && graph.rights_of(
                            (#[trigger] keys@[c])@,
                        ).contains(f);
                    assert(0 <= c < i + 1 && graph.rights_of(keys@[c]@).contains(f));
                }
                if more.contains(f) {
                    assert(graph.rights_of(keys@[i as int]@).contains(f));
                }
            }
        }
        i += 1;
    }
    files
}

/// Once a file is deleted nothing in either graph points at it: it is no
/// left key of the dependency graph and no member of any key's left set, and
/// it is no right key of the record of alias use and no member of any alias's
/// set. For a file that was no dependent itself and is no alias name, no set
/// of either graph holds it at all.
pub proof fn lemma_deleted_file_is_orphaned(
    before: WatcherContext,
    after: WatcherContext,
    p: Seq<char>,
    k: Seq<char>,
)
    requires
        before.wf(),
        after.wf(),
        after.dependencies.model() == before.dependencies.model().without_lefts(set![p]),
        after.alias_graph() == before.alias_graph().without_rights(set![p]),
    ensures
        !after.dependencies.has_left(p),
        !after.dependencies.lefts_of(k).contains(p),
        !after.alias_graph().rights.contains(p),
        !after.alias_users(k).contains(p),
        !before.dependencies.has_right(p) ==> !after.dependencies.rights_of(k).contains(p),
        !before.alias_graph().lefts.contains(p) ==> !after.alias_graph().edges.contains((p, k)),
{
    let d0 = before.dependencies;
    let d1 = after.dependencies;
    assert(set![p].contains(p));
    assert(d1.model().lefts == d0.model().lefts.difference(set![p]));
    assert(!d1.left_keys().contains(p));
    assert(d1.rights_of(p).contains(k) == d1.lefts_of(k).contains(p));
    assert(d1.edges().contains((p, k)) == d1.rights_of(p).contains(k));
    assert(!d1.model().edges.contains((p, k)));
    assert(!after.alias_graph().rights.contains(p));
    assert(!after.alias_graph().edges.contains((k, p)));
    match after.luaurc {
        Some(bound) => {
            let g = bound.1.dependants.0;
            assert(g.edges().contains((k, p)) == g.rights_of(k).contains(p));
        },
        None => {},
    }
    if !before.dependencies.has_right(p) {
        if d1.rights_of(k).contains(p) {
            assert(d1.model().edges.contains((k, p)));
            assert(d0.model().edges.contains((k, p)));
            assert(d0.rights_of(k).contains(p) == d0.lefts_of(p).contains(k));
        }
    }
    if !before.alias_graph().lefts.contains(p) {
        if after.alias_graph().edges.contains((p, k)) {
            assert(before.alias_graph().edges.contains((p, k)));
            match before.luaurc {
                Some(bound) => {
                    let g = bound.1.dependants.0;
                    assert(g.edges().contains((p, k)) == g.rights_of(p).contains(k));
                    assert(g.has_left(p));
                    assert(g.left_keys().contains(p));
                },
                None => {},
            }
        }
    }
}

} // verus!
