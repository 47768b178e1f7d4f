//! The env-file line grammar and the variable mapping it fills: lines are
//! trimmed, blank lines and `#` comments are skipped, the rest split at the
//! first `=`; keys are trimmed, values trimmed and stripped of surrounding
//! quote characters. A later line for the same key overwrites the earlier
//! value. The surrounding binary reads the files; the parsing lives here.

use vstd::prelude::*;
use crate::codec::chars_to_string;
use crate::codec::str_chars;
use crate::memory::has_key;
use crate::memory::key_index;
use crate::memory::lookup;
use crate::memory::lemma_key_index;

verus! {

/// The model of the variable mapping: key–value pairs, keys unique, in
/// first-insertion order.
pub type EnvModel = Seq<(Seq<char>, Seq<char>)>;

/// The whitespace the grammar trims: blanks, tabs and line-end characters.
pub open spec fn is_env_space(c: char) -> bool {
    c == ' ' || c == '\t' || c == '\r' || c == '\n' || c == '\u{b}' || c == '\u{c}'
}

pub open spec fn trim_front(s: Seq<char>) -> Seq<char>
    decreases s.len(),
{
    if s.len() > 0 && is_env_space(s.first()) {
        trim_front(s.drop_first())
    } else {
        s
    }
}

pub open spec fn trim_back(s: Seq<char>) -> Seq<char>
    decreases s.len(),
{
    if s.len() > 0 && is_env_space(s.last()) {
        trim_back(s.drop_last())
    } else {
        s
    }
}

pub open spec fn trimmed(s: Seq<char>) -> Seq<char> {
    trim_back(trim_front(s))
}

pub open spec fn trim_char_front(s: Seq<char>, c: char) -> Seq<char>
    decreases s.len(),
{
    if s.len() > 0 && s.first() == c {
        trim_char_front(s.drop_first(), c)
    } else {
        s
    }
}

pub open spec fn trim_char_back(s: Seq<char>, c: char) -> Seq<char>
    decreases s.len(),
{
    if s.len() > 0 && s.last() == c {
        trim_char_back(s.drop_last(), c)
    } else {
        s
    }
}

/// `s` with every leading and trailing `c` removed.
pub open spec fn trim_char(s: Seq<char>, c: char) -> Seq<char> {
    trim_char_back(trim_char_front(s, c), c)
}

/// Splits at the first `=`: what stands before it and what after. A line
/// without `=` does not split.
pub open spec fn split_eq(s: Seq<char>) -> Option<(Seq<char>, Seq<char>)>
    decreases s.len(),
{
    if s.len() == 0 {
        None
    } else if s.first() == '=' {
        Some((Seq::empty(), s.drop_first()))
    } else {
        match split_eq(s.drop_first()) {
            Some(p) => Some((seq![s.first()] + p.0, p.1)),
            None => None,
        }
    }
}

/// What one line defines: nothing for blank lines, comments and lines
/// without `=`; otherwise the trimmed key and the trimmed, unquoted value.
pub open spec fn parsed_env_line(line: Seq<char>) -> Option<(Seq<char>, Seq<char>)> {
    let t = trimmed(line);
    if t.len() == 0 || t.first() == '#' {
        None
    } else {
        match split_eq(t) {
            Some(p) => Some(
                (trimmed(p.0), trim_char(trim_char(trimmed(p.1), '"'), '\'')),
            ),
            None => None,
        }
    }
}

/// Sets `k` to `v`: overwrites the value in place if `k` is known, appends
/// the pair otherwise.
pub open spec fn env_upsert(m: EnvModel, k: Seq<char>, v: Seq<char>) -> EnvModel {
    if has_key(m, k) {
        m.update(key_index(m, k), (k, v))
    } else {
        m.push((k, v))
    }
}

pub open spec fn apply_env_line(m: EnvModel, line: Seq<char>) -> EnvModel {
    match parsed_env_line(line) {
        Some(p) => env_upsert(m, p.0, p.1),
        None => m,
    }
}

/// Consumes the content character by character, gathering the current line
/// and applying it at every line break and at the end.
pub open spec fn env_step(m: EnvModel, cur: Seq<char>, rest: Seq<char>) -> EnvModel
    decreases rest.len(),
{
    if rest.len() == 0 {
        apply_env_line(m, cur)
    } else if rest.first() == '\n' {
        env_step(apply_env_line(m, cur), Seq::empty(), rest.drop_first())
    } else {
        env_step(m, cur.push(rest.first()), rest.drop_first())
    }
}

/// What one file's content does to the mapping.
pub open spec fn env_of_content(m: EnvModel, content: Seq<char>) -> EnvModel {
    env_step(m, Seq::empty(), content)
}

/// What loading several files in order does: later files win.
pub open spec fn env_of_contents(m: EnvModel, cs: Seq<Seq<char>>) -> EnvModel
    decreases cs.len(),
{
    if cs.len() == 0 {
        m
    } else {
        env_of_contents(env_of_content(m, cs.first()), cs.drop_first())
    }
}

/// Mapping invariant: no key twice.
pub open spec fn env_wf(m: EnvModel) -> bool {
    forall|i: int, j: int| #![trigger m[i], m[j]] 0 <= i < j < m.len() ==> m[i].0 != m[j].0
}

proof fn lemma_env_upsert_wf(m: EnvModel, k: Seq<char>, v: Seq<char>)
    requires
        env_wf(m),
    ensures
        env_wf(env_upsert(m, k, v)),
{
    lemma_key_index(m, k);
    let m2 = env_upsert(m, k, v);
    if has_key(m, k) {
        let i = key_index(m, k);
        assert(m2[i].0 == m[i].0);
        assert(forall|j: int| 0 <= j < m2.len() && j != i ==> m2[j] == m[j]);
    } else {
        assert forall|i: int, j: int| #![trigger m2[i], m2[j]] 0 <= i < j < m2.len() implies m2[i].0
            != m2[j].0 by {
            if j == m.len() {
                assert(m2[j].0 == k);
                assert(m[i].0 != k);
            }
        }
    }
}

/// One variable with its value.
pub struct EnvVar {
    pub key: String,
    pub value: String,
}

/// The variable mapping handed to a spawned child.
pub struct EnvVars {
    vars: Vec<EnvVar>,
}

impl View for EnvVars {
    type V = EnvModel;

    closed spec fn view(&self) -> EnvModel {
        self.vars@.map(|i: int, e: EnvVar| (e.key@, e.value@))
    }
}

impl EnvVars {
    /// Mapping invariant, on the model.
    pub open spec fn wf(&self) -> bool {
        env_wf(self@)
    }

    /// An empty mapping.
    pub fn new() -> (r: EnvVars)
        ensures
            r@ == Seq::<(Seq<char>, Seq<char>)>::empty(),
            r.wf(),
    {
        let r = EnvVars { vars: Vec::new() };
        proof {
            assert(r@ =~= Seq::<(Seq<char>, Seq<char>)>::empty());
        }
        r
    }

    /// How many variables are set.
    pub fn var_count(&self) -> (n: usize)
        ensures
            n == self@.len(),
    {
        self.vars.len()
    }

    /// The variable at position `i`, in first-insertion order.
    pub fn var_at(&self, i: usize) -> (e: &EnvVar)
        requires
            i < self@.len(),
        ensures
            (e.key@, e.value@) == self@[i as int],
    {
        proof {
            assert(self@[i as int] == (self.vars@[i as int].key@, self.vars@[i as int].value@));
        }
        &self.vars[i]
    }

    fn find_key(&self, key: &String) -> (r: Option<usize>)
        ensures
            match r {
                Some(i) => has_key(self@, key@) && i == key_index(self@, key@),
                None => !has_key(self@, key@),
            },
    {
        proof {
            lemma_key_index(self@, key@);
        }
        let n = self.vars.len();
        let mut i: usize = 0;
        while i < n
            invariant
                n == self.vars.len(),
                self@.len() == n,
                i <= n,
                forall|j: int| 0 <= j < i ==> (#[trigger] self@[j]).0 != key@,
            decreases n - i,
        {
            proof {
                lemma_key_index(self@, key@);
                assert(self@[i as int] == (
                    self.vars@[i as int].key@,
                    self.vars@[i as int].value@,
                ));
            }
            if self.vars[i].key == *key {
                return Some(i);
            }
            i += 1;
        }
        proof {
            lemma_key_index(self@, key@);
        }
        None
    }

    /// The value set for `key`, if any.
    pub fn get(&self, key: &String) -> (r: Option<&String>)
        ensures
            match r {
                Some(v) => lookup(self@, key@) == Some(v@),
                None => lookup(self@, key@) is None,
            },
    {
        match self.find_key(key) {
            Some(i) => {
                proof {
                    assert(self@[i as int] == (
                        self.vars@[i as int].key@,
                        self.vars@[i as int].value@,
                    ));
                }
                Some(&self.vars[i].value)
            },
            None => None,
        }
    }

    /// Sets `key` to `value`, overwriting any earlier value.
    pub fn set(&mut self, key: String, value: String)
        ensures
            final(self)@ == env_upsert(old(self)@, key@, value@),
            old(self).wf() ==> final(self).wf(),
    {
        let ghost m0 = self@;
        proof {
            lemma_key_index(m0, key@);
            if env_wf(m0) {
                lemma_env_upsert_wf(m0, key@, value@);
            }
        }
        match self.find_key(&key) {
            Some(i) => {
                self.vars.remove(i);
                self.vars.insert(i, EnvVar { key, value });
                proof {
                    assert(self@ =~= env_upsert(m0, key@, value@));
                }
            },
            None => {
                self.vars.push(EnvVar { key, value });
                proof {
                    assert(self@ =~= env_upsert(m0, key@, value@));
                }
            },
        }
    }
}

fn is_space_x(c: char) -> (b: bool)
    ensures
        b == is_env_space(c),
{
    c == ' ' || c == '\t' || c == '\r' || c == '\n' || c == '\u{b}' || c == '\u{c}'
}

fn trim_front_x(v: Vec<char>) -> (r: Vec<char>)
    ensures
        r@ == trim_front(v@),
    decreases v@.len(),
{
    let ghost v0 = v@;
    if v.len() > 0 && is_space_x(v[0]) {
        let mut v = v;
        v.remove(0);
        proof {
            assert(v@ =~= v0.drop_first());
        }
        trim_front_x(v)
    } else {
        v
    }
}

fn trim_back_x(v: Vec<char>) -> (r: Vec<char>)
    ensures
        r@ == trim_back(v@),
    decreases v@.len(),
{
    let ghost v0 = v@;
    if v.len() > 0 && is_space_x(v[v.len() - 1]) {
        proof {
            assert(v0[v0.len() - 1] == v0.last());
        }
        let mut v = v;
        let n = v.len() - 1;
        v.truncate(n);
        proof {
            assert(v@ =~= v0.drop_last());
        }
        trim_back_x(v)
    } else {
        proof {
            if v0.len() > 0 {
                assert(v0[v0.len() - 1] == v0.last());
            }
        }
        v
    }
}

fn trim_char_front_x(v: Vec<char>, c: char) -> (r: Vec<char>)
    ensures
        r@ == trim_char_front(v@, c),
    decreases v@.len(),
{
    let ghost v0 = v@;
    if v.len() > 0 && v[0] == c {
        let mut v = v;
        v.remove(0);
        proof {
            assert(v@ =~= v0.drop_first());
        }
        trim_char_front_x(v, c)
    } else {
        v
    }
}

fn trim_char_back_x(v: Vec<char>, c: char) -> (r: Vec<char>)
    ensures
        r@ == trim_char_back(v@, c),
    decreases v@.len(),
{
    let ghost v0 = v@;
    if v.len() > 0 && v[v.len() - 1] == c {
        proof {
            assert(v0[v0.len() - 1] == v0.last());
        }
        let mut v = v;
        let n = v.len() - 1;
        v.truncate(n);
        proof {
            assert(v@ =~= v0.drop_last());
        }
        trim_char_back_x(v, c)
    } else {
        proof {
            if v0.len() > 0 {
                assert(v0[v0.len() - 1] == v0.last());
            }
        }
        v
    }
}

fn split_eq_x(t: Vec<char>) -> (r: Option<(Vec<char>, Vec<char>)>)
    ensures
        match r {
            Some(p) => split_eq(t@) == Some((p.0@, p.1@)),
            None => split_eq(t@) is None,
        },
    decreases t@.len(),
{
    let ghost t0 = t@;
    if t.len() == 0 {
        return None;
    }
    let mut t = t;
    let c = t.remove(0);
    proof {
        assert(t@ =~= t0.drop_first());
        assert(c == t0.first());
    }
    if c == '=' {
        let left: Vec<char> = Vec::new();
        proof {
            assert(left@ =~= Seq::<char>::empty());
        }
        Some((left, t))
    } else {
        match split_eq_x(t) {
            Some((l, rest)) => {
                let mut l = l;
                let ghost l0 = l@;
                l.insert(0, c);
                proof {
                    assert(l@ =~= seq![t0.first()] + l0);
                }
                Some((l, rest))
            },
            None => None,
        }
    }
}

fn dup_chars(v: &Vec<char>) -> (r: Vec<char>)
    ensures
        r@ == v@,
{
    let mut r: Vec<char> = Vec::new();
    let mut i: usize = 0;
    while i < v.len()
        invariant
            i <= v.len(),
            r@ == v@.take(i as int),
        decreases v.len() - i,
    {
        r.push(v[i]);
        proof {
            assert(v@.take(i as int).push(v@[i as int]) =~= v@.take(i as int + 1));
        }
        i += 1;
    }
    proof {
        assert(v@.take(v.len() as int) =~= v@);
    }
    r
}

impl EnvVars {
    /// Applies one line of an env file.
    fn apply_line_chars(&mut self, line: &Vec<char>)
        ensures
            final(self)@ == apply_env_line(old(self)@, line@),
            old(self).wf() ==> final(self).wf(),
    {
        let t = trim_back_x(trim_front_x(dup_chars(line)));
        if t.len() == 0 {
            return;
        }
        if t[0] == '#' {
            proof {
                assert(t@.first() == '#');
            }
            return;
        }
        match split_eq_x(t) {
            None => {},
            Some((l, r)) => {
                let key_cs = trim_back_x(trim_front_x(l));
                let v1 = trim_back_x(trim_front_x(r));
                let v2 = trim_char_back_x(trim_char_front_x(v1, '"'), '"');
                let v3 = trim_char_back_x(trim_char_front_x(v2, '\''), '\'');
                let key = chars_to_string(&key_cs);
                let value = chars_to_string(&v3);
                self.set(key, value);
            },
        }
    }

    /// Applies one env file's whole content, line by line.
    pub fn apply_content(&mut self, content: &str)
        ensures
            final(self)@ == env_of_content(old(self)@, content@),
            old(self).wf() ==> final(self).wf(),
    {
        let ghost m0 = self@;
        let cs = str_chars(content);
        proof {
            assert(cs@.skip(0) =~= cs@);
        }
        let mut line: Vec<char> = Vec::new();
        proof {
            assert(line@ =~= Seq::<char>::empty());
        }
        let mut i: usize = 0;
        while i < cs.len()
            invariant
                i <= cs.len(),
                cs@ == content@,
                env_step(self@, line@, cs@.skip(i as int)) == env_of_content(m0, content@),
                env_wf(m0) ==> env_wf(self@),
            decreases cs.len() - i,
        {
            proof {
                assert(cs@.skip(i as int).first() == cs@[i as int]);
                assert(cs@.skip(i as int).drop_first() =~= cs@.skip(i as int + 1));
            }
            let c = cs[i];
            if c == '\n' {
                self.apply_line_chars(&line);
                line = Vec::new();
                proof {
                    assert(line@ =~= Seq::<char>::empty());
                }
            } else {
                line.push(c);
            }
            i += 1;
        }
        proof {
            assert(cs@.skip(cs.len() as int) =~= Seq::<char>::empty());
        }
        self.apply_line_chars(&line);
    }
}

/// The mapping that loading the given file contents in order produces:
/// later files overwrite earlier ones, later lines earlier lines.
pub fn env_vars_from_contents(contents: &Vec<String>) -> (r: EnvVars)
    ensures
        r.wf(),
        r@ == env_of_contents(Seq::empty(), contents.deep_view()),
{
    let ghost dv = contents.deep_view();
    let mut vars = EnvVars::new();
    proof {
        assert(dv.take(0) =~= Seq::<Seq<char>>::empty());
    }
    let mut i: usize = 0;
    while i < contents.len()
        invariant
            i <= contents.len(),
            dv == contents.deep_view(),
            vars.wf(),
            vars@ == env_of_contents(Seq::empty(), dv.take(i as int)),
        decreases contents.len() - i,
    {
        proof {
            assert(dv[i as int] == contents@[i as int]@);
        }
        vars.apply_content(contents[i].as_str());
        proof {
            lemma_env_of_contents_snoc(Seq::empty(), dv.take(i as int), dv[i as int]);
            assert(dv.take(i as int).push(dv[i as int]) =~= dv.take(i as int + 1));
        }
        i += 1;
    }
    proof {
        assert(dv.take(contents.len() as int) =~= dv);
    }
    vars
}

proof fn lemma_env_of_contents_snoc(m: EnvModel, cs: Seq<Seq<char>>, x: Seq<char>)
    ensures
        env_of_contents(m, cs.push(x)) == env_of_content(env_of_contents(m, cs), x),
    decreases cs.len(),
{
    if cs.len() == 0 {
        reveal_with_fuel(env_of_contents, 2);
        assert(cs.push(x).first() == x);
        assert(cs.push(x).drop_first() =~= Seq::<Seq<char>>::empty());
        assert(env_of_contents(env_of_content(m, x), cs.push(x).drop_first()) == env_of_content(
            m,
            x,
        ));
    } else {
        assert(cs.push(x).first() == cs.first());
        assert(cs.push(x).drop_first() =~= cs.drop_first().push(x));
        lemma_env_of_contents_snoc(env_of_content(m, cs.first()), cs.drop_first(), x);
    }
}

/// Whether `a` is `b` with some elements left out, order kept.
pub open spec fn subseq_of(a: Seq<Seq<char>>, b: Seq<Seq<char>>) -> bool
    decreases a.len() + b.len(),
{
    if a.len() == 0 {
        true
    } else if b.len() == 0 {
        false
    } else if a.first() == b.first() {
        subseq_of(a.drop_first(), b.drop_first())
    } else {
        subseq_of(a, b.drop_first())
    }
}

proof fn lemma_subseq_extend(a: Seq<Seq<char>>, b: Seq<Seq<char>>, x: Seq<char>)
    requires
        subseq_of(a, b),
    ensures
        subseq_of(a, b.push(x)),
    decreases a.len() + b.len(),
{
    reveal_with_fuel(subseq_of, 3);
    if a.len() == 0 {
    } else if b.len() == 0 {
    } else {
        assert(b.push(x).first() == b.first());
        assert(b.push(x).drop_first() =~= b.drop_first().push(x));
        if a.first() == b.first() {
            lemma_subseq_extend(a.drop_first(), b.drop_first(), x);
        } else {
            lemma_subseq_extend(a, b.drop_first(), x);
        }
    }
}

proof fn lemma_subseq_snoc(a: Seq<Seq<char>>, b: Seq<Seq<char>>, x: Seq<char>)
    requires
        subseq_of(a, b),
    ensures
        subseq_of(a.push(x), b.push(x)),
    decreases a.len() + b.len(),
{
    reveal_with_fuel(subseq_of, 3);
    if a.len() == 0 {
        lemma_subseq_one(x, b);
        assert(a.push(x) =~= seq![x]);
    } else if b.len() == 0 {
    } else {
        assert(a.push(x).first() == a.first());
        assert(a.push(x).drop_first() =~= a.drop_first().push(x));
        assert(b.push(x).first() == b.first());
        assert(b.push(x).drop_first() =~= b.drop_first().push(x));
        if a.first() == b.first() {
            lemma_subseq_snoc(a.drop_first(), b.drop_first(), x);
        } else {
            lemma_subseq_snoc(a, b.drop_first(), x);
        }
    }
}

proof fn lemma_subseq_one(x: Seq<char>, b: Seq<Seq<char>>)
    ensures
        subseq_of(seq![x], b.push(x)),
    decreases b.len(),
{
    reveal_with_fuel(subseq_of, 3);
    if b.len() == 0 {
        assert(b.push(x).first() == x);
        assert(seq![x].first() == x);
        assert(seq![x].drop_first() =~= Seq::<Seq<char>>::empty());
        assert(b.push(x).drop_first() =~= Seq::<Seq<char>>::empty());
    } else {
        assert(b.push(x).first() == b.first());
        assert(b.push(x).drop_first() =~= b.drop_first().push(x));
        if x == b.first() {
            lemma_subseq_prefix(seq![x].drop_first(), b.drop_first().push(x));
        } else {
            lemma_subseq_one(x, b.drop_first());
        }
    }
}

proof fn lemma_subseq_prefix(a: Seq<Seq<char>>, b: Seq<Seq<char>>)
    requires
        a.len() == 0,
    ensures
        subseq_of(a, b),
{
}

/// Relies on `std::path::Path::exists` to ask the file system whether the
/// path points at anything. The answer depends on the disk, so nothing is
/// promised about it.
#[verifier::external_body]
fn path_exists(f: &String) -> (r: bool) {
    std::path::Path::new(f.as_str()).exists()
}

/// The given paths that currently exist on disk, order kept: the result is
/// always a subsequence of the input.
pub fn filter_existing(files: &Vec<String>) -> (r: Vec<String>)
    ensures
        subseq_of(r.deep_view(), files.deep_view()),
{
    let ghost dv = files.deep_view();
    let mut out: Vec<String> = Vec::new();
    proof {
        assert(out.deep_view() =~= Seq::<Seq<char>>::empty());
        assert(dv.take(0) =~= Seq::<Seq<char>>::empty());
    }
    let mut i: usize = 0;
    while i < files.len()
        invariant
            i <= files.len(),
            dv == files.deep_view(),
            subseq_of(out.deep_view(), dv.take(i as int)),
        decreases files.len() - i,
    {
        proof {
            assert(dv[i as int] == files@[i as int]@);
        }
        let ghost before = out.deep_view();
        if path_exists(&files[i]) {
            out.push(files[i].clone());
            proof {
                assert(out.deep_view() =~= before.push(dv[i as int]));
                lemma_subseq_snoc(before, dv.take(i as int), dv[i as int]);
            }
        } else {
            proof {
                lemma_subseq_extend(before, dv.take(i as int), dv[i as int]);
            }
        }
        proof {
            assert(dv.take(i as int).push(dv[i as int]) =~= dv.take(i as int + 1));
        }
        i += 1;
    }
    proof {
        assert(dv.take(files.len() as int) =~= dv);
    }
    out
}

} // verus!
