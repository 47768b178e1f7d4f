//! Configuration as plain data: the global memory settings and the
//! project-local settings with the alias table. The surrounding binary
//! reads and parses the actual files; alias expansion, the one piece of
//! logic here, is verified.

use vstd::prelude::*;
use crate::memory::StoreModel;
use crate::memory::lookup;
use crate::memory::lemma_key_index;

verus! {

/// The global configuration.
pub struct Config {
    pub memory: MemoryConfig,
}

/// How the recency store behaves: whether it is consulted at all, and how
/// many env-file paths one directory remembers at most.
pub struct MemoryConfig {
    pub enabled: bool,
    pub max_entries: usize,
}

/// Project-local configuration: a local override of the memory flag, and
/// the alias table.
pub struct LocalConfig {
    pub memory: LocalMemoryConfig,
    pub aliases: Vec<AliasEntry>,
}

/// The local memory override: unset means "as configured globally".
pub struct LocalMemoryConfig {
    pub enabled: Option<bool>,
}

/// One alias: a name and the files it stands for.
pub struct AliasEntry {
    pub name: String,
    pub files: Vec<String>,
}

/// Whether the recency store is consulted when nothing else is configured.
pub fn default_enabled() -> (b: bool)
    ensures
        b,
{
    true
}

/// How many env-file paths one directory remembers at most, when nothing
/// else is configured.
pub fn default_max_entries() -> (n: usize)
    ensures
        n == 10,
{
    10
}

impl Default for MemoryConfig {
    fn default() -> (c: Self)
        ensures
            c.enabled,
            c.max_entries == 10,
    {
        MemoryConfig { enabled: default_enabled(), max_entries: default_max_entries() }
    }
}

impl Default for Config {
    fn default() -> (c: Self)
        ensures
            c.memory.enabled,
            c.memory.max_entries == 10,
    {
        Config { memory: MemoryConfig::default() }
    }
}

impl Default for LocalMemoryConfig {
    fn default() -> (c: Self)
        ensures
            c.enabled is None,
    {
        LocalMemoryConfig { enabled: None }
    }
}

impl Default for LocalConfig {
    fn default() -> (c: Self)
        ensures
            c.memory.enabled is None,
            c.aliases@.len() == 0,
    {
        LocalConfig { memory: LocalMemoryConfig::default(), aliases: Vec::new() }
    }
}

/// What one given file expands to: an `@name` token becomes the files of
/// the alias of that name, an unknown token or a plain path stands for
/// itself.
pub open spec fn expand_one(aliases: StoreModel, f: Seq<char>) -> Seq<Seq<char>> {
    if f.len() > 0 && f.first() == '@' {
        match lookup(aliases, f.drop_first()) {
            Some(l) => l,
            None => seq![f],
        }
    } else {
        seq![f]
    }
}

/// All given files expanded, in order.
pub open spec fn expand_model(aliases: StoreModel, files: Seq<Seq<char>>) -> Seq<Seq<char>>
    decreases files.len(),
{
    if files.len() == 0 {
        Seq::empty()
    } else {
        expand_one(aliases, files.first()) + expand_model(aliases, files.drop_first())
    }
}

proof fn lemma_expand_model_snoc(aliases: StoreModel, files: Seq<Seq<char>>, f: Seq<char>)
    ensures
        expand_model(aliases, files.push(f)) == expand_model(aliases, files) + expand_one(
            aliases,
            f,
        ),
    decreases files.len(),
{
    if files.len() == 0 {
        reveal_with_fuel(expand_model, 2);
        assert(files.push(f).first() == f);
        assert(files.push(f).drop_first() =~= Seq::<Seq<char>>::empty());
        assert(expand_model(aliases, files.push(f).drop_first()) =~= Seq::<Seq<char>>::empty());
        assert(expand_model(aliases, files.push(f)) =~= expand_model(aliases, files) + expand_one(
            aliases,
            f,
        ));
    } else {
        assert(files.push(f).first() == files.first());
        assert(files.push(f).drop_first() =~= files.drop_first().push(f));
        lemma_expand_model_snoc(aliases, files.drop_first(), f);
        assert(expand_one(aliases, files.first()) + (expand_model(aliases, files.drop_first())
            + expand_one(aliases, f)) =~= (expand_one(aliases, files.first()) + expand_model(
            aliases,
            files.drop_first(),
        )) + expand_one(aliases, f));
    }
}

impl LocalConfig {
    /// The alias table as a model: name first, then the files.
    pub open spec fn alias_model(&self) -> StoreModel {
        self.aliases@.map(|i: int, a: AliasEntry| (a.name@, a.files.deep_view()))
    }

    /// The files of the first alias with this name, if any.
    fn find_alias(&self, name: &String) -> (r: Option<&Vec<String>>)
        ensures
            match r {
                Some(l) => lookup(self.alias_model(), name@) == Some(l.deep_view()),
                None => lookup(self.alias_model(), name@) is None,
            },
    {
        let ghost am = self.alias_model();
        proof {
            lemma_key_index(am, name@);
        }
        let n = self.aliases.len();
        let mut i: usize = 0;
        while i < n
            invariant
                n == self.aliases.len(),
                am == self.alias_model(),
                am.len() == n,
                i <= n,
                forall|j: int| 0 <= j < i ==> (#[trigger] am[j]).0 != name@,
            decreases n - i,
        {
            proof {
                lemma_key_index(am, name@);
                assert(am[i as int] == (
                    self.aliases@[i as int].name@,
                    self.aliases@[i as int].files.deep_view(),
                ));
            }
            if self.aliases[i].name == *name {
                return Some(&self.aliases[i].files);
            }
            i += 1;
        }
        proof {
            lemma_key_index(am, name@);
        }
        None
    }

    /// Expands every `@name` token among `files` against the alias table:
    /// a known alias becomes its files, in place and in order; an unknown
    /// token and every plain path stay as they are.
    pub fn expand_aliases(&self, files: &Vec<String>) -> (r: Vec<String>)
        ensures
            r.deep_view() == expand_model(self.alias_model(), files.deep_view()),
    {
        let ghost am = self.alias_model();
        let ghost dv = files.deep_view();
        let mut out: Vec<String> = Vec::new();
        proof {
            assert(out.deep_view() =~= Seq::<Seq<char>>::empty());
            assert(dv.take(0) =~= Seq::<Seq<char>>::empty());
        }
        let mut i: usize = 0;
        while i < files.len()
            invariant
                am == self.alias_model(),
                dv == files.deep_view(),
                i <= files.len(),
                out.deep_view() == expand_model(am, dv.take(i as int)),
            decreases files.len() - i,
        {
            let ghost before = out.deep_view();
            proof {
                assert(dv[i as int] == files@[i as int]@);
            }
            let f = &files[i];
            let n = f.as_str().unicode_len();
            let is_alias_token = n > 0 && f.as_str().get_char(0) == '@';
            if is_alias_token {
                let name_slice = f.as_str().substring_char(1, n);
                let name = String::from_str(name_slice);
                proof {
                    assert(name@ =~= f@.drop_first());
                }
                match self.find_alias(&name) {
                    Some(alias_files) => {
                        let ghost av = alias_files.deep_view();
                        let mut k: usize = 0;
                        while k < alias_files.len()
                            invariant
                                av == alias_files.deep_view(),
                                k <= alias_files.len(),
                                out.deep_view() == before + av.take(k as int),
                            decreases alias_files.len() - k,
                        {
                            let ghost mid = out.deep_view();
                            out.push(alias_files[k].clone());
                            proof {
                                assert(av[k as int] == alias_files@[k as int]@);
                                assert(out.deep_view() =~= mid.push(av[k as int]));
                                assert(mid.push(av[k as int]) =~= before + av.take(k as int).push(
                                    av[k as int],
                                ));
                                assert(av.take(k as int).push(av[k as int]) =~= av.take(
                                    k as int + 1,
                                ));
                            }
                            k += 1;
                        }
                        proof {
                            assert(av.take(alias_files.len() as int) =~= av);
                            assert(out.deep_view() == before + expand_one(am, dv[i as int]));
                        }
                    },
                    None => {
                        out.push(f.clone());
                        proof {
                            assert(out.deep_view() =~= before + seq![dv[i as int]]);
                            assert(out.deep_view() == before + expand_one(am, dv[i as int]));
                        }
                    },
                }
            } else {
                out.push(f.clone());
                proof {
                    assert(out.deep_view() =~= before + seq![dv[i as int]]);
                    assert(out.deep_view() == before + expand_one(am, dv[i as int]));
                }
            }
            proof {
                lemma_expand_model_snoc(am, dv.take(i as int), dv[i as int]);
                assert(dv.take(i as int).push(dv[i as int]) =~= dv.take(i as int + 1));
            }
            i += 1;
        }
        proof {
            assert(dv.take(files.len() as int) =~= dv);
        }
        out
    }
}

} // verus!
