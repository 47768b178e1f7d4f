//! The per-directory recency store: for every directory it was told about,
//! the env-file paths last used there, most recently used first, bounded in
//! length and free of duplicates.

use vstd::prelude::*;

verus! {

/// The model of the store: one pair per remembered directory, the directory
/// key first, then the env-file paths, most recently used first.
pub type StoreModel = Seq<(Seq<char>, Seq<Seq<char>>)>;

/// One remembered directory with the env-file paths last used there.
pub struct MemoryEntry {
    pub dir: String,
    pub files: Vec<String>,
}

/// The recency store, keyed by canonical directory path.
pub struct Memory {
    entries: Vec<MemoryEntry>,
}

/// `l` with every occurrence of `f` removed, order otherwise kept.
pub open spec fn without(l: Seq<Seq<char>>, f: Seq<char>) -> Seq<Seq<char>>
    decreases l.len(),
{
    if l.len() == 0 {
        Seq::empty()
    } else if l.first() == f {
        without(l.drop_first(), f)
    } else {
        seq![l.first()] + without(l.drop_first(), f)
    }
}

/// `f` moved to the front of `l`: every occurrence of `f` is removed and one
/// copy is put first.
pub open spec fn promote(l: Seq<Seq<char>>, f: Seq<char>) -> Seq<Seq<char>> {
    seq![f] + without(l, f)
}

/// All of `files` promoted to the front of `l`: the last file is promoted
/// first, so the first file of `files` ends up frontmost and the given
/// relative order is kept.
pub open spec fn promote_all(l: Seq<Seq<char>>, files: Seq<Seq<char>>) -> Seq<Seq<char>>
    decreases files.len(),
{
    if files.len() == 0 {
        l
    } else {
        promote(promote_all(l, files.drop_first()), files.first())
    }
}

/// `l` cut down to at most `max` entries, keeping the front.
pub open spec fn clip(l: Seq<Seq<char>>, max: int) -> Seq<Seq<char>> {
    if max < 0 {
        Seq::empty()
    } else if l.len() <= max {
        l
    } else {
        l.take(max)
    }
}

/// What one directory's remembered list becomes when `files` are recorded
/// into `l` with bound `max`.
pub open spec fn record_entry(l: Seq<Seq<char>>, files: Seq<Seq<char>>, max: int) -> Seq<
    Seq<char>,
> {
    clip(promote_all(l, files), max)
}

/// Index of the first entry with key `k`; `m.len()` if there is none.
pub open spec fn key_index<V>(m: Seq<(Seq<char>, V)>, k: Seq<char>) -> int
    decreases m.len(),
{
    if m.len() == 0 {
        0
    } else if m.first().0 == k {
        0
    } else {
        1 + key_index(m.drop_first(), k)
    }
}

pub open spec fn has_key<V>(m: Seq<(Seq<char>, V)>, k: Seq<char>) -> bool {
    key_index(m, k) < m.len()
}

/// The value remembered for key `k`, if any.
pub open spec fn lookup<V>(m: Seq<(Seq<char>, V)>, k: Seq<char>) -> Option<V> {
    if has_key(m, k) {
        Some(m[key_index(m, k)].1)
    } else {
        None
    }
}

/// The previously remembered list for `k`, or empty if `k` is new.
pub open spec fn prior(m: StoreModel, k: Seq<char>) -> Seq<Seq<char>> {
    match lookup(m, k) {
        Some(l) => l,
        None => Seq::empty(),
    }
}

/// What the whole store becomes when `files` are recorded under key `k`.
pub open spec fn record_model(m: StoreModel, k: Seq<char>, files: Seq<Seq<char>>, max: int) -> StoreModel {
    if has_key(m, k) {
        m.update(key_index(m, k), (k, record_entry(m[key_index(m, k)].1, files, max)))
    } else {
        m.push((k, record_entry(Seq::empty(), files, max)))
    }
}

/// No path appears twice in the list.
pub open spec fn distinct_files(l: Seq<Seq<char>>) -> bool {
    forall|i: int, j: int| #![trigger l[i], l[j]] 0 <= i < j < l.len() ==> l[i] != l[j]
}

/// Store invariant: directory keys are unique, and within one entry no path
/// appears twice.
pub open spec fn store_wf(m: StoreModel) -> bool {
    &&& forall|i: int, j: int| #![trigger m[i], m[j]] 0 <= i < j < m.len() ==> m[i].0 != m[j].0
    &&& forall|i: int| 0 <= i < m.len() ==> distinct_files(#[trigger] m[i].1)
}

impl View for Memory {
    type V = StoreModel;

    closed spec fn view(&self) -> StoreModel {
        self.entries@.map(|i: int, e: MemoryEntry| (e.dir@, e.files.deep_view()))
    }
}

pub proof fn lemma_key_index<V>(m: Seq<(Seq<char>, V)>, k: Seq<char>)
    ensures
        0 <= key_index(m, k) <= m.len(),
        key_index(m, k) < m.len() ==> m[key_index(m, k)].0 == k,
        forall|j: int| 0 <= j < key_index(m, k) ==> (#[trigger] m[j]).0 != k,
        forall|j: int| 0 <= j < m.len() && (#[trigger] m[j]).0 == k ==> key_index(m, k) <= j,
    decreases m.len(),
{
    if m.len() == 0 {
    } else if m.first().0 == k {
    } else {
        lemma_key_index(m.drop_first(), k);
        assert forall|j: int| 0 <= j < key_index(m, k) implies (#[trigger] m[j]).0 != k by {
            if j > 0 {
                assert(m.drop_first()[j - 1] == m[j]);
            }
        }
        assert forall|j: int| 0 <= j < m.len() && (#[trigger] m[j]).0 == k implies key_index(
            m,
            k,
        ) <= j by {
            if j > 0 {
                assert(m.drop_first()[j - 1] == m[j]);
            }
        }
        if key_index(m, k) < m.len() {
            assert(m[key_index(m, k)] == m.drop_first()[key_index(m.drop_first(), k)]);
        }
    }
}

proof fn lemma_without_snoc(s: Seq<Seq<char>>, x: Seq<char>, f: Seq<char>)
    ensures
        without(s.push(x), f) == if x == f {
            without(s, f)
        } else {
            without(s, f) + seq![x]
        },
    decreases s.len(),
{
    if s.len() == 0 {
        assert(s.push(x).drop_first() =~= Seq::<Seq<char>>::empty());
        assert(s.push(x).first() == x);
        assert(without(Seq::<Seq<char>>::empty(), f) == Seq::<Seq<char>>::empty());
        assert(without(s, f) == Seq::<Seq<char>>::empty());
        if x == f {
            assert(without(s.push(x), f) == without(s.push(x).drop_first(), f));
        } else {
            assert(without(s.push(x), f) == seq![x] + without(s.push(x).drop_first(), f));
            assert(seq![x] + Seq::<Seq<char>>::empty() =~= Seq::<Seq<char>>::empty() + seq![x]);
        }
    } else {
        assert(s.push(x).drop_first() =~= s.drop_first().push(x));
        assert(s.push(x).first() == s.first());
        lemma_without_snoc(s.drop_first(), x, f);
        if s.first() == f {
            assert(without(s.push(x), f) == without(s.drop_first().push(x), f));
            assert(without(s, f) == without(s.drop_first(), f));
        } else {
            assert(without(s.push(x), f) == seq![s.first()] + without(s.drop_first().push(x), f));
            assert(without(s, f) == seq![s.first()] + without(s.drop_first(), f));
            if x != f {
                assert(seq![s.first()] + (without(s.drop_first(), f) + seq![x]) =~= (seq![
                    s.first(),
                ] + without(s.drop_first(), f)) + seq![x]);
            }
        }
    }
}

proof fn lemma_drop_first_distinct(l: Seq<Seq<char>>)
    requires
        distinct_files(l),
        l.len() > 0,
    ensures
        distinct_files(l.drop_first()),
        !l.drop_first().contains(l.first()),
{
    assert forall|i: int, j: int| 0 <= i < j < l.drop_first().len() implies (
    #[trigger] l.drop_first()[i]) != (#[trigger] l.drop_first()[j]) by {
        assert(l.drop_first()[i] == l[i + 1]);
        assert(l.drop_first()[j] == l[j + 1]);
    }
    if l.drop_first().contains(l.first()) {
        let i = choose|i: int| 0 <= i < l.drop_first().len() && l.drop_first()[i] == l.first();
        assert(l[i + 1] == l[0]);
    }
}

proof fn lemma_without_props(l: Seq<Seq<char>>, f: Seq<char>)
    ensures
        forall|x: Seq<char>| #[trigger] without(l, f).contains(x) ==> l.contains(x) && x != f,
        without(l, f).len() <= l.len(),
        distinct_files(l) ==> distinct_files(without(l, f)),
    decreases l.len(),
{
    if l.len() == 0 {
    } else {
        let t = l.drop_first();
        lemma_without_props(t, f);
        assert forall|x: Seq<char>| #[trigger] t.contains(x) implies l.contains(x) by {
            let i = choose|i: int| 0 <= i < t.len() && t[i] == x;
            assert(l[i + 1] == x);
        }
        if distinct_files(l) {
            lemma_drop_first_distinct(l);
        }
        if l.first() == f {
        } else {
            let w = seq![l.first()] + without(t, f);
            assert(without(l, f) == w);
            assert forall|x: Seq<char>| #[trigger] w.contains(x) implies l.contains(x) && x != f by {
                let i = choose|i: int| 0 <= i < w.len() && w[i] == x;
                if i == 0 {
                    assert(l[0] == x);
                } else {
                    assert(without(t, f)[i - 1] == x);
                    assert(without(t, f).contains(x));
                }
            }
            if distinct_files(l) {
                assert forall|i: int, j: int| 0 <= i < j < w.len() implies (#[trigger] w[i]) != (
                #[trigger] w[j]) by {
                    if i == 0 {
                        assert(without(t, f)[j - 1] == w[j]);
                        assert(without(t, f).contains(w[j]));
                        assert(t.contains(w[j]));
                        if w[0] == w[j] {
                            assert(t.contains(l.first()));
                        }
                    } else {
                        assert(without(t, f)[i - 1] == w[i]);
                        assert(without(t, f)[j - 1] == w[j]);
                    }
                }
            }
        }
    }
}

/// Promoting keeps a list free of duplicates, and never grows it by more
/// than the one promoted path.
proof fn lemma_promote_distinct(l: Seq<Seq<char>>, f: Seq<char>)
    ensures
        distinct_files(l) ==> distinct_files(promote(l, f)),
        promote(l, f).len() <= l.len() + 1,
{
    lemma_without_props(l, f);
    let w = seq![f] + without(l, f);
    if distinct_files(l) {
        assert forall|i: int, j: int| 0 <= i < j < w.len() implies (#[trigger] w[i]) != (
        #[trigger] w[j]) by {
            if i == 0 {
                assert(without(l, f)[j - 1] == w[j]);
                assert(without(l, f).contains(w[j]));
            } else {
                assert(without(l, f)[i - 1] == w[i]);
                assert(without(l, f)[j - 1] == w[j]);
            }
        }
    }
}

proof fn lemma_promote_all_distinct(l: Seq<Seq<char>>, files: Seq<Seq<char>>)
    requires
        distinct_files(l),
    ensures
        distinct_files(promote_all(l, files)),
    decreases files.len(),
{
    if files.len() == 0 {
    } else {
        lemma_promote_all_distinct(l, files.drop_first());
        lemma_promote_distinct(promote_all(l, files.drop_first()), files.first());
    }
}

proof fn lemma_clip_distinct(l: Seq<Seq<char>>, max: int)
    requires
        distinct_files(l),
    ensures
        distinct_files(clip(l, max)),
        max >= 0 ==> clip(l, max).len() <= max,
{
    let c = clip(l, max);
    if max >= 0 {
        assert forall|i: int, j: int| 0 <= i < j < c.len() implies (#[trigger] c[i]) != (
        #[trigger] c[j]) by {
            assert(c[i] == l[i]);
            assert(c[j] == l[j]);
        }
    }
}

/// Recording preserves the store invariant.
proof fn lemma_record_model_wf(m: StoreModel, k: Seq<char>, files: Seq<Seq<char>>, max: int)
    requires
        store_wf(m),
    ensures
        store_wf(record_model(m, k, files, max)),
{
    lemma_key_index(m, k);
    if has_key(m, k) {
        let i = key_index(m, k);
        lemma_promote_all_distinct(m[i].1, files);
        lemma_clip_distinct(promote_all(m[i].1, files), max);
        let m2 = record_model(m, k, files, max);
        assert(m2[i].0 == m[i].0);
        assert(forall|j: int| 0 <= j < m2.len() && j != i ==> m2[j] == m[j]);
    } else {
        lemma_promote_all_distinct(Seq::<Seq<char>>::empty(), files);
        lemma_clip_distinct(promote_all(Seq::<Seq<char>>::empty(), files), max);
        let m2 = record_model(m, k, files, max);
        assert forall|i: int, j: int| #![trigger m2[i], m2[j]] 0 <= i < j < m2.len() implies m2[i].0
            != m2[j].0 by {
            if j == m.len() {
                assert(m2[j].0 == k);
                assert(m[i].0 != k);
            }
        }
    }
}

/// Looking up right after recording finds exactly the recorded list: the
/// previously remembered paths behind the just-recorded files, clipped to
/// the bound.
pub proof fn lemma_record_lookup(m: StoreModel, k: Seq<char>, files: Seq<Seq<char>>, max: int)
    ensures
        lookup(record_model(m, k, files, max), k) == Some(record_entry(prior(m, k), files, max)),
{
    lemma_key_index(m, k);
    let m2 = record_model(m, k, files, max);
    if has_key(m, k) {
        let i = key_index(m, k);
        lemma_key_index(m2, k);
        assert(m2[i].0 == k);
        if key_index(m2, k) < i {
            assert(m2[key_index(m2, k)] == m[key_index(m2, k)]);
        }
        assert(key_index(m2, k) == i);
    } else {
        lemma_key_index(m2, k);
        let n = m.len() as int;
        assert(m2[n].0 == k);
        if key_index(m2, k) < n {
            assert(m2[key_index(m2, k)] == m[key_index(m2, k)]);
        }
        assert(key_index(m2, k) == n);
    }
}

/// A recorded entry never exceeds the configured bound.
pub proof fn lemma_record_bounded(m: StoreModel, k: Seq<char>, files: Seq<Seq<char>>, max: int)
    requires
        max >= 0,
    ensures
        lookup(record_model(m, k, files, max), k) matches Some(l) && l.len() <= max,
{
    lemma_record_lookup(m, k, files, max);
}

/// Moves `f` to the front of `list`, removing any other occurrence of it.
fn promote_front(list: Vec<String>, f: &String) -> (r: Vec<String>)
    ensures
        r.deep_view() == promote(list.deep_view(), f@),
{
    let ghost l0 = list.deep_view();
    let mut out: Vec<String> = Vec::new();
    out.push(f.clone());
    proof {
        assert(out.deep_view() =~= seq![f@] + without(l0.take(0), f@));
    }
    let mut i: usize = 0;
    while i < list.len()
        invariant
            i <= list.len(),
            l0 == list.deep_view(),
            out.deep_view() == seq![f@] + without(l0.take(i as int), f@),
        decreases list.len() - i,
    {
        proof {
            assert(l0[i as int] == list@[i as int]@);
        }
        let ghost dv0 = out.deep_view();
        let keep = !(list[i] == *f);
        if keep {
            out.push(list[i].clone());
        }
        proof {
            lemma_without_snoc(l0.take(i as int), l0[i as int], f@);
            assert(l0.take(i as int).push(l0[i as int]) =~= l0.take(i as int + 1));
            if keep {
                assert(out.deep_view() =~= dv0.push(l0[i as int]));
                assert(dv0.push(l0[i as int]) =~= seq![f@] + (without(l0.take(i as int), f@)
                    + seq![l0[i as int]]));
            }
        }
        i += 1;
    }
    proof {
        assert(l0.take(list.len() as int) =~= l0);
    }
    out
}

/// Applies `promote_front` for every file, last first, so the given files
/// end up at the front in their given order.
fn apply_files(list: Vec<String>, files: &Vec<String>) -> (r: Vec<String>)
    ensures
        r.deep_view() == promote_all(list.deep_view(), files.deep_view()),
{
    let ghost l0 = list.deep_view();
    let ghost fs = files.deep_view();
    let mut cur = list;
    let mut j = files.len();
    proof {
        assert(fs.skip(j as int) =~= Seq::<Seq<char>>::empty());
    }
    while j > 0
        invariant
            j <= files.len(),
            fs == files.deep_view(),
            cur.deep_view() == promote_all(l0, fs.skip(j as int)),
        decreases j,
    {
        j -= 1;
        cur = promote_front(cur, &files[j]);
        proof {
            assert(fs.skip(j as int).drop_first() =~= fs.skip(j as int + 1));
            assert(fs.skip(j as int).first() == fs[j as int]);
            assert(fs[j as int] == files@[j as int]@);
        }
    }
    proof {
        assert(fs.skip(0) =~= fs);
    }
    cur
}

/// Cuts the list down to at most `max` entries, keeping the front.
fn clip_front(list: Vec<String>, max: usize) -> (r: Vec<String>)
    ensures
        r.deep_view() == clip(list.deep_view(), max as int),
{
    let ghost l0 = list.deep_view();
    let mut list = list;
    if list.len() > max {
        list.truncate(max);
        proof {
            assert(list.deep_view() =~= l0.take(max as int));
        }
    }
    list
}

impl Memory {
    /// Store invariant, on the model.
    pub open spec fn wf(&self) -> bool {
        store_wf(self@)
    }

    /// An empty store.
    pub fn new() -> (m: Memory)
        ensures
            m@ == Seq::<(Seq<char>, Seq<Seq<char>>)>::empty(),
            m.wf(),
    {
        let m = Memory { entries: Vec::new() };
        proof {
            assert(m@ =~= Seq::<(Seq<char>, Seq<Seq<char>>)>::empty());
        }
        m
    }

    /// Index of the entry for `key`, if the store has one.
    fn find_index(&self, key: &String) -> (r: Option<usize>)
        ensures
            match r {
                Some(i) => has_key(self@, key@) && i == key_index(self@, key@),
                None => !has_key(self@, key@),
            },
    {
        proof {
            lemma_key_index(self@, key@);
        }
        let n = self.entries.len();
        let mut i: usize = 0;
        while i < n
            invariant
                n == self.entries.len(),
                self@.len() == n,
                i <= n,
                forall|j: int| 0 <= j < i ==> (#[trigger] self@[j]).0 != key@,
                has_key(self@, key@) ==> key_index(self@, key@) >= i,
            decreases n - i,
        {
            proof {
                lemma_key_index(self@, key@);
                assert(self@[i as int] == (self.entries@[i as int].dir@, self.entries@[i as int].files.deep_view()));
            }
            if self.entries[i].dir == *key {
                return Some(i);
            }
            i += 1;
        }
        proof {
            lemma_key_index(self@, key@);
        }
        None
    }

    /// Records that `env_files` were just used in the directory with the
    /// given (already canonical) key: the files move to the front of that
    /// directory's list, in their given order, and the list is clipped to
    /// `max_entries`.
    pub fn record_for_key(&mut self, key: &String, env_files: &Vec<String>, max_entries: usize)
        ensures
            final(self)@ == record_model(
                old(self)@,
                key@,
                env_files.deep_view(),
                max_entries as int,
            ),
            old(self).wf() ==> final(self).wf(),
    {
        let ghost m0 = self@;
        proof {
            lemma_key_index(m0, key@);
        }
        match self.find_index(key) {
            Some(i) => {
                proof {
                    assert(m0[i as int] == (
                        self.entries@[i as int].dir@,
                        self.entries@[i as int].files.deep_view(),
                    ));
                }
                let entry = self.entries.remove(i);
                let files = apply_files(entry.files, env_files);
                let files = clip_front(files, max_entries);
                self.entries.insert(
                    i,
                    MemoryEntry { dir: entry.dir, files },
                );
                proof {
                    assert(entry.dir@ == m0[i as int].0);
                    assert(entry.files.deep_view() == m0[i as int].1);
                    assert(self@ =~= record_model(
                        m0,
                        key@,
                        env_files.deep_view(),
                        max_entries as int,
                    ));
                }
            },
            None => {
                let fresh: Vec<String> = Vec::new();
                proof {
                    assert(fresh.deep_view() =~= Seq::<Seq<char>>::empty());
                }
                let files = apply_files(fresh, env_files);
                let files = clip_front(files, max_entries);
                self.entries.push(MemoryEntry { dir: key.clone(), files });
                proof {
                    assert(self@ =~= record_model(
                        m0,
                        key@,
                        env_files.deep_view(),
                        max_entries as int,
                    ));
                }
            },
        }
        proof {
            if store_wf(m0) {
                lemma_record_model_wf(m0, key@, env_files.deep_view(), max_entries as int);
            }
        }
    }

    /// The list remembered for the given (already canonical) key, most
    /// recently used first.
    pub fn get_for_key(&self, key: &String) -> (r: Option<&Vec<String>>)
        ensures
            match r {
                Some(l) => lookup(self@, key@) == Some(l.deep_view()),
                None => lookup(self@, key@) is None,
            },
    {
        match self.find_index(key) {
            Some(i) => {
                proof {
                    assert(self@[i as int] == (
                        self.entries@[i as int].dir@,
                        self.entries@[i as int].files.deep_view(),
                    ));
                }
                Some(&self.entries[i].files)
            },
            None => None,
        }
    }

    /// How many directories the store remembers.
    pub fn entry_count(&self) -> (n: usize)
        ensures
            n == self@.len(),
    {
        self.entries.len()
    }

    /// The entry at position `i`, oldest first.
    pub fn entry_at(&self, i: usize) -> (e: &MemoryEntry)
        requires
            i < self@.len(),
        ensures
            e.dir@ == self@[i as int].0,
            e.files.deep_view() == self@[i as int].1,
    {
        proof {
            assert(self@[i as int] == (
                self.entries@[i as int].dir@,
                self.entries@[i as int].files.deep_view(),
            ));
        }
        &self.entries[i]
    }

    /// A store made of the given entries, as they stand.
    pub fn from_entries(entries: Vec<MemoryEntry>) -> (m: Memory)
        ensures
            m@.len() == entries@.len(),
            forall|i: int|
                0 <= i < entries@.len() ==> m@[i] == ((#[trigger] entries@[i]).dir@, entries@[i].files.deep_view()),
    {
        Memory { entries }
    }

    /// Decides the store invariant.
    pub fn check_wf(&self) -> (b: bool)
        ensures
            b == self.wf(),
    {
        let n = self.entries.len();
        let mut i: usize = 0;
        while i < n
            invariant
                n == self.entries.len(),
                self@.len() == n,
                i <= n,
                forall|p: int, q: int| #![trigger self@[p], self@[q]]
                    0 <= p < q < n && p < i ==> self@[p].0 != self@[q].0,
                forall|p: int| 0 <= p < i ==> distinct_files((#[trigger] self@[p]).1),
            decreases n - i,
        {
            proof {
                assert(self@[i as int] == (
                    self.entries@[i as int].dir@,
                    self.entries@[i as int].files.deep_view(),
                ));
            }
            if !files_distinct(&self.entries[i].files) {
                proof {
                    assert(!distinct_files(self@[i as int].1));
                }
                return false;
            }
            let mut j: usize = i + 1;
            while j < n
                invariant
                    n == self.entries.len(),
                    self@.len() == n,
                    i < j <= n,
                    forall|q: int| i < q < j ==> (#[trigger] self@[q]).0 != self@[i as int].0,
                decreases n - j,
            {
                proof {
                    assert(self@[i as int] == (
                        self.entries@[i as int].dir@,
                        self.entries@[i as int].files.deep_view(),
                    ));
                    assert(self@[j as int] == (
                        self.entries@[j as int].dir@,
                        self.entries@[j as int].files.deep_view(),
                    ));
                }
                if self.entries[i].dir == self.entries[j].dir {
                    return false;
                }
                j += 1;
            }
            i += 1;
        }
        true
    }

    /// Records that `env_files` were just used in directory `dir`. The
    /// directory is canonicalized so that every spelling of the same
    /// directory shares one entry; if canonicalization fails the raw path
    /// serves as the key, so recording still succeeds.
    pub fn record(&mut self, dir: &String, env_files: &Vec<String>, max_entries: usize)
        ensures
            exists|k: Seq<char>|
                final(self)@ == record_model(
                    old(self)@,
                    k,
                    env_files.deep_view(),
                    max_entries as int,
                ),
            old(self).wf() ==> final(self).wf(),
    {
        let key = match canonical_dir_key(dir) {
            Some(k) => k,
            None => dir.clone(),
        };
        self.record_for_key(&key, env_files, max_entries);
        proof {
            let w = key@;
            assert(final(self)@ == record_model(
                old(self)@,
                w,
                env_files.deep_view(),
                max_entries as int,
            ));
        }
    }

    /// The env files last used in directory `dir`, if the store remembers
    /// any. A directory whose canonicalization fails is a lookup miss.
    pub fn get(&self, dir: &String) -> (r: Option<&Vec<String>>)
        ensures
            match r {
                Some(l) => exists|k: Seq<char>| lookup(self@, k) == Some(l.deep_view()),
                None => true,
            },
    {
        match canonical_dir_key(dir) {
            Some(key) => {
                let r = self.get_for_key(&key);
                proof {
                    if r is Some {
                        let w = key@;
                        assert(lookup(self@, w) == Some(r->Some_0.deep_view()));
                    }
                }
                r
            },
            None => None,
        }
    }
}

/// Decides whether no path appears twice in the list.
fn files_distinct(files: &Vec<String>) -> (b: bool)
    ensures
        b == distinct_files(files.deep_view()),
{
    let dv = Ghost(files.deep_view());
    let n = files.len();
    let mut i: usize = 0;
    while i < n
        invariant
            n == files.len(),
            dv@ == files.deep_view(),
            i <= n,
            forall|p: int, q: int| #![trigger dv@[p], dv@[q]]
                0 <= p < q < n && p < i ==> dv@[p] != dv@[q],
        decreases n - i,
    {
        let mut j: usize = i + 1;
        while j < n
            invariant
                n == files.len(),
                dv@ == files.deep_view(),
                i < j <= n,
                forall|q: int| i < q < j ==> (#[trigger] dv@[q]) != dv@[i as int],
            decreases n - j,
        {
            proof {
                assert(dv@[i as int] == files@[i as int]@);
                assert(dv@[j as int] == files@[j as int]@);
            }
            if files[i] == files[j] {
                return false;
            }
            j += 1;
        }
        i += 1;
    }
    true
}

/// Relies on `std::path::Path::canonicalize` to resolve a directory path to
/// its unique absolute, symlink-free form. The result depends on the file
/// system, so nothing is promised about it.
#[verifier::external_body]
fn canonical_dir_key(dir: &String) -> (r: Option<String>) {
    std::path::Path::new(dir.as_str()).canonicalize().ok().map(
        |p| p.to_string_lossy().to_string(),
    )
}

/// A path that no element of `l` equals is not removed by `without`.
proof fn lemma_without_absent(l: Seq<Seq<char>>, f: Seq<char>)
    requires
        forall|i: int| 0 <= i < l.len() ==> (#[trigger] l[i]) != f,
    ensures
        without(l, f) == l,
    decreases l.len(),
{
    if l.len() == 0 {
        assert(without(l, f) =~= l);
    } else {
        assert forall|i: int| 0 <= i < l.drop_first().len() implies (#[trigger] l.drop_first()[i])
            != f by {
            assert(l.drop_first()[i] == l[i + 1]);
        }
        lemma_without_absent(l.drop_first(), f);
        assert(without(l, f) =~= seq![l.first()] + l.drop_first());
        assert(seq![l.first()] + l.drop_first() =~= l);
    }
}

proof fn lemma_promote_all_one(l: Seq<Seq<char>>, a: Seq<char>)
    ensures
        promote_all(l, seq![a]) == promote(l, a),
{
    reveal_with_fuel(promote_all, 2);
    assert(seq![a].drop_first() =~= Seq::<Seq<char>>::empty());
    assert(seq![a].first() == a);
    assert(promote_all(l, seq![a].drop_first()) == l);
}

proof fn lemma_promote_all_two(l: Seq<Seq<char>>, a: Seq<char>, b: Seq<char>)
    ensures
        promote_all(l, seq![a, b]) == promote(promote(l, b), a),
{
    assert(seq![a, b].drop_first() =~= seq![b]);
    assert(seq![a, b].first() == a);
    lemma_promote_all_one(l, b);
}

/// Recency ordering: in a directory with no prior entry, recording `[a, b]`
/// and then `[c]` leaves the remembered list `[c, a, b]` — the new path is
/// promoted to the front and the others keep their relative order.
pub proof fn lemma_recency_ordering(
    m: StoreModel,
    k: Seq<char>,
    a: Seq<char>,
    b: Seq<char>,
    c: Seq<char>,
    max: int,
)
    requires
        !has_key(m, k),
        a != b,
        a != c,
        b != c,
        max >= 3,
    ensures
        ({
            let m1 = record_model(m, k, seq![a, b], max);
            let m2 = record_model(m1, k, seq![c], max);
            lookup(m2, k) == Some(seq![c, a, b])
        }),
{
    let e = Seq::<Seq<char>>::empty();
    lemma_record_lookup(m, k, seq![a, b], max);
    lemma_promote_all_two(e, a, b);
    assert(promote(e, b) =~= seq![b]);
    lemma_without_absent(seq![b], a);
    assert(promote(seq![b], a) =~= seq![a, b]);
    assert(record_entry(e, seq![a, b], max) == seq![a, b]);

    let m1 = record_model(m, k, seq![a, b], max);
    lemma_record_lookup(m1, k, seq![c], max);
    lemma_promote_all_one(seq![a, b], c);
    lemma_without_absent(seq![a, b], c);
    assert(promote(seq![a, b], c) =~= seq![c, a, b]);
    assert(record_entry(seq![a, b], seq![c], max) == seq![c, a, b]);
}

/// Deduplication: recording the same single path twice leaves one copy, not
/// two.
pub proof fn lemma_deduplication(m: StoreModel, k: Seq<char>, a: Seq<char>, max: int)
    requires
        !has_key(m, k),
        max >= 1,
    ensures
        ({
            let m1 = record_model(m, k, seq![a], max);
            let m2 = record_model(m1, k, seq![a], max);
            lookup(m2, k) == Some(seq![a])
        }),
{
    let e = Seq::<Seq<char>>::empty();
    lemma_record_lookup(m, k, seq![a], max);
    lemma_promote_all_one(e, a);
    assert(promote(e, a) =~= seq![a]);
    assert(record_entry(e, seq![a], max) == seq![a]);

    let m1 = record_model(m, k, seq![a], max);
    lemma_record_lookup(m1, k, seq![a], max);
    lemma_promote_all_one(seq![a], a);
    reveal_with_fuel(without, 3);
    assert(seq![a].drop_first() =~= e);
    assert(without(seq![a], a) == without(e, a));
    assert(promote(seq![a], a) =~= seq![a]);
    assert(record_entry(seq![a], seq![a], max) == seq![a]);
}

/// Bounded length: with `max_entries = 2`, recording `[a]`, `[b]`, `[c]` in
/// turn leaves exactly `[c, b]`: two entries, the most recent first.
pub proof fn lemma_bounded_length(
    m: StoreModel,
    k: Seq<char>,
    a: Seq<char>,
    b: Seq<char>,
    c: Seq<char>,
)
    requires
        !has_key(m, k),
        a != b,
        a != c,
        b != c,
    ensures
        ({
            let m1 = record_model(m, k, seq![a], 2);
            let m2 = record_model(m1, k, seq![b], 2);
            let m3 = record_model(m2, k, seq![c], 2);
            lookup(m3, k) == Some(seq![c, b])
        }),
{
    let e = Seq::<Seq<char>>::empty();
    lemma_record_lookup(m, k, seq![a], 2);
    lemma_promote_all_one(e, a);
    assert(promote(e, a) =~= seq![a]);
    assert(record_entry(e, seq![a], 2) == seq![a]);

    let m1 = record_model(m, k, seq![a], 2);
    lemma_record_lookup(m1, k, seq![b], 2);
    lemma_promote_all_one(seq![a], b);
    lemma_without_absent(seq![a], b);
    assert(promote(seq![a], b) =~= seq![b, a]);
    assert(record_entry(seq![a], seq![b], 2) == seq![b, a]);

    let m2 = record_model(m1, k, seq![b], 2);
    lemma_record_lookup(m2, k, seq![c], 2);
    lemma_promote_all_one(seq![b, a], c);
    lemma_without_absent(seq![b, a], c);
    assert(promote(seq![b, a], c) =~= seq![c, b, a]);
    assert(seq![c, b, a].take(2) =~= seq![c, b]);
    assert(record_entry(seq![b, a], seq![c], 2) == seq![c, b]);
}

/// Canonicalization equivalence: the store tells directories apart only by
/// their canonical key. Recording under one key and looking up any equal
/// key — however the directory was originally spelled — finds the recorded
/// list.
pub proof fn lemma_canonical_equivalence(
    m: StoreModel,
    k1: Seq<char>,
    k2: Seq<char>,
    files: Seq<Seq<char>>,
    max: int,
)
    requires
        k1 == k2,
    ensures
        lookup(record_model(m, k1, files, max), k2) == Some(
            record_entry(prior(m, k1), files, max),
        ),
{
    lemma_record_lookup(m, k1, files, max);
}

} // verus!
