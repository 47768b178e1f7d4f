//! The persisted snapshot format of the recency store: one line per
//! directory, the quoted key, then the quoted env-file paths as an inline
//! list. Parsing is total: lines that do not look like an entry are ignored
//! for forward compatibility, a malformed entry line or an invariant-breaking
//! document degrades to the empty store, never to an error.

use vstd::prelude::*;
use vstd::string::StrSliceExecFns;
use crate::memory::Memory;
use crate::memory::MemoryEntry;
use crate::memory::StoreModel;
use crate::memory::store_wf;

verus! {

/// How one character is written inside quotes: quote and backslash get a
/// backslash in front, everything else stands for itself.
pub open spec fn esc_char(c: char) -> Seq<char> {
    if c == '"' || c == '\\' {
        seq!['\\', c]
    } else {
        seq![c]
    }
}

pub open spec fn escape(s: Seq<char>) -> Seq<char>
    decreases s.len(),
{
    if s.len() == 0 {
        Seq::empty()
    } else {
        esc_char(s.first()) + escape(s.drop_first())
    }
}

pub open spec fn quoted(s: Seq<char>) -> Seq<char> {
    seq!['"'] + escape(s) + seq!['"']
}

/// The inline list of quoted paths, including the closing bracket.
pub open spec fn rendered_values(vs: Seq<Seq<char>>) -> Seq<char>
    decreases vs.len(),
{
    if vs.len() == 0 {
        seq![']']
    } else if vs.len() == 1 {
        quoted(vs.first()) + seq![']']
    } else {
        quoted(vs.first()) + seq![',', ' '] + rendered_values(vs.drop_first())
    }
}

pub open spec fn rendered_line(k: Seq<char>, vs: Seq<Seq<char>>) -> Seq<char> {
    quoted(k) + seq![' ', '=', ' ', '['] + rendered_values(vs) + seq!['\n']
}

pub open spec fn rendered_entries(m: StoreModel) -> Seq<char>
    decreases m.len(),
{
    if m.len() == 0 {
        Seq::empty()
    } else {
        rendered_line(m.first().0, m.first().1) + rendered_entries(m.drop_first())
    }
}

/// The section header written above the entries.
pub open spec fn header() -> Seq<char> {
    seq!['[', 'e', 'n', 't', 'r', 'i', 'e', 's', ']', '\n']
}

/// The whole persisted document for a store.
pub open spec fn rendered_doc(m: StoreModel) -> Seq<char> {
    header() + rendered_entries(m)
}

/// Scans a quoted string after its opening quote: a backslash takes the next
/// character literally, an unescaped quote ends the string. Returns the
/// content and what follows the closing quote.
pub open spec fn scan_quoted(s: Seq<char>) -> Option<(Seq<char>, Seq<char>)>
    decreases s.len(),
{
    if s.len() == 0 {
        None
    } else if s.first() == '"' {
        Some((Seq::empty(), s.drop_first()))
    } else if s.first() == '\\' {
        if s.len() < 2 {
            None
        } else {
            match scan_quoted(s.skip(2)) {
                Some(p) => Some((seq![s[1]] + p.0, p.1)),
                None => None,
            }
        }
    } else {
        match scan_quoted(s.drop_first()) {
            Some(p) => Some((seq![s.first()] + p.0, p.1)),
            None => None,
        }
    }
}

pub open spec fn parse_quoted(s: Seq<char>) -> Option<(Seq<char>, Seq<char>)> {
    if s.len() > 0 && s.first() == '"' {
        scan_quoted(s.drop_first())
    } else {
        None
    }
}

proof fn lemma_scan_quoted_shrinks(s: Seq<char>)
    ensures
        scan_quoted(s) matches Some(p) ==> p.1.len() < s.len(),
    decreases s.len(),
{
    if s.len() == 0 {
    } else if s.first() == '"' {
    } else if s.first() == '\\' {
        if s.len() >= 2 {
            lemma_scan_quoted_shrinks(s.skip(2));
        }
    } else {
        lemma_scan_quoted_shrinks(s.drop_first());
    }
}

/// Parses the tail of an inline list: quoted paths separated by a comma and
/// a space, closed by a bracket.
pub open spec fn scan_values(s: Seq<char>) -> Option<(Seq<Seq<char>>, Seq<char>)>
    decreases s.len(),
    via scan_values_decreases
{
    if s.len() > 0 && s.first() == ']' {
        Some((Seq::empty(), s.drop_first()))
    } else {
        match parse_quoted(s) {
            Some(p) => {
                if p.1.len() > 0 && p.1.first() == ']' {
                    Some((seq![p.0], p.1.drop_first()))
                } else if p.1.len() >= 2 && p.1[0] == ',' && p.1[1] == ' ' {
                    match scan_values(p.1.skip(2)) {
                        Some(q) => Some((seq![p.0] + q.0, q.1)),
                        None => None,
                    }
                } else {
                    None
                }
            },
            None => None,
        }
    }
}

#[via_fn]
proof fn scan_values_decreases(s: Seq<char>) {
    if !(s.len() > 0 && s.first() == ']') && s.len() > 0 && s.first() == '"' {
        lemma_scan_quoted_shrinks(s.drop_first());
    }
}

proof fn lemma_scan_values_shrinks(s: Seq<char>)
    ensures
        scan_values(s) matches Some(p) ==> p.1.len() < s.len(),
    decreases s.len(),
{
    if s.len() > 0 && s.first() == ']' {
    } else {
        if s.len() > 0 && s.first() == '"' {
            lemma_scan_quoted_shrinks(s.drop_first());
            match parse_quoted(s) {
                Some(p) => {
                    if p.1.len() >= 2 && p.1[0] == ',' && p.1[1] == ' ' {
                        lemma_scan_values_shrinks(p.1.skip(2));
                    }
                },
                None => {},
            }
        }
    }
}

/// Parses one entry line starting at its opening quote, up to and including
/// the line break (or the end of the document).
pub open spec fn parse_line(s: Seq<char>) -> Option<((Seq<char>, Seq<Seq<char>>), Seq<char>)> {
    match parse_quoted(s) {
        Some(p) => {
            if p.1.len() >= 4 && p.1[0] == ' ' && p.1[1] == '=' && p.1[2] == ' ' && p.1[3] == '[' {
                match scan_values(p.1.skip(4)) {
                    Some(q) => {
                        if q.1.len() == 0 {
                            Some(((p.0, q.0), q.1))
                        } else if q.1.first() == '\n' {
                            Some(((p.0, q.0), q.1.drop_first()))
                        } else {
                            None
                        }
                    },
                    None => None,
                }
            } else {
                None
            }
        },
        None => None,
    }
}

proof fn lemma_parse_line_shrinks(s: Seq<char>)
    ensures
        parse_line(s) matches Some(p) ==> p.1.len() < s.len(),
{
    if s.len() > 0 && s.first() == '"' {
        lemma_scan_quoted_shrinks(s.drop_first());
        match parse_quoted(s) {
            Some(p) => {
                if p.1.len() >= 4 && p.1[0] == ' ' && p.1[1] == '=' && p.1[2] == ' ' && p.1[3]
                    == '[' {
                    lemma_scan_values_shrinks(p.1.skip(4));
                }
            },
            None => {},
        }
    }
}

/// Everything after the first line break; empty if there is none.
pub open spec fn after_line(s: Seq<char>) -> Seq<char>
    decreases s.len(),
{
    if s.len() == 0 {
        s
    } else if s.first() == '\n' {
        s.drop_first()
    } else {
        after_line(s.drop_first())
    }
}

proof fn lemma_after_line_shrinks(s: Seq<char>)
    ensures
        s.len() > 0 ==> after_line(s).len() < s.len(),
        s.len() == 0 ==> after_line(s) == s,
    decreases s.len(),
{
    if s.len() > 0 && s.first() != '\n' {
        lemma_after_line_shrinks(s.drop_first());
    }
}

/// Parses a whole document: entry lines start with a quote; any other line
/// is ignored (the header, unknown fields). A malformed entry line makes the
/// whole document malformed.
pub open spec fn parse_doc(s: Seq<char>) -> Option<StoreModel>
    decreases s.len(),
    via parse_doc_decreases
{
    if s.len() == 0 {
        Some(Seq::empty())
    } else if s.first() == '"' {
        match parse_line(s) {
            Some(p) => match parse_doc(p.1) {
                Some(m) => Some(seq![p.0] + m),
                None => None,
            },
            None => None,
        }
    } else {
        parse_doc(after_line(s))
    }
}

#[via_fn]
proof fn parse_doc_decreases(s: Seq<char>) {
    if s.len() > 0 {
        if s.first() == '"' {
            lemma_parse_line_shrinks(s);
        } else {
            lemma_after_line_shrinks(s);
        }
    }
}

/// The store a persisted document denotes: its entries if the document
/// parses and satisfies the store invariant, the empty store otherwise.
pub open spec fn load_model(s: Seq<char>) -> StoreModel {
    match parse_doc(s) {
        Some(m) => if store_wf(m) {
            m
        } else {
            Seq::empty()
        },
        None => Seq::empty(),
    }
}

proof fn lemma_scan_escape(v: Seq<char>, rest: Seq<char>)
    ensures
        scan_quoted(escape(v) + seq!['"'] + rest) == Some((v, rest)),
    decreases v.len(),
{
    let s = escape(v) + seq!['"'] + rest;
    if v.len() == 0 {
        assert(s =~= seq!['"'] + rest);
        assert(s.first() == '"');
        assert(s.drop_first() =~= rest);
        assert(Seq::<char>::empty() =~= v);
    } else {
        let c = v.first();
        let t = v.drop_first();
        assert(escape(v) == esc_char(c) + escape(t));
        lemma_scan_escape(t, rest);
        if c == '"' || c == '\\' {
            assert(esc_char(c) == seq!['\\', c]);
            assert(s.len() >= 2);
            assert(s.first() == '\\');
            assert(s[1] == c);
            assert(s.skip(2) =~= escape(t) + seq!['"'] + rest);
            assert(seq![s[1]] + t =~= v);
        } else {
            assert(esc_char(c) == seq![c]);
            assert(s.first() == c);
            assert(s.drop_first() =~= escape(t) + seq!['"'] + rest);
            assert(seq![s.first()] + t =~= v);
        }
    }
}

proof fn lemma_parse_quoted_render(v: Seq<char>, rest: Seq<char>)
    ensures
        parse_quoted(quoted(v) + rest) == Some((v, rest)),
        (quoted(v) + rest).len() > 0,
        (quoted(v) + rest).first() == '"',
{
    let s = quoted(v) + rest;
    assert(s.first() == '"');
    assert(s.drop_first() =~= escape(v) + seq!['"'] + rest);
    lemma_scan_escape(v, rest);
}

proof fn lemma_scan_values_render(vs: Seq<Seq<char>>, rest: Seq<char>)
    ensures
        scan_values(rendered_values(vs) + rest) == Some((vs, rest)),
    decreases vs.len(),
{
    let s = rendered_values(vs) + rest;
    if vs.len() == 0 {
        assert(s =~= seq![']'] + rest);
        assert(s.first() == ']');
        assert(s.drop_first() =~= rest);
        assert(Seq::<Seq<char>>::empty() =~= vs);
    } else if vs.len() == 1 {
        assert(s =~= quoted(vs.first()) + (seq![']'] + rest));
        lemma_parse_quoted_render(vs.first(), seq![']'] + rest);
        assert(s.first() == '"');
        let r = seq![']'] + rest;
        assert(r.first() == ']');
        assert(r.drop_first() =~= rest);
        assert(seq![vs.first()] =~= vs);
    } else {
        let tail_rendered = rendered_values(vs.drop_first());
        let r = (seq![',', ' '] + tail_rendered) + rest;
        assert(s =~= quoted(vs.first()) + r);
        lemma_parse_quoted_render(vs.first(), r);
        assert(s.first() == '"');
        assert(r[0] == ',');
        assert(r[1] == ' ');
        assert(r.len() >= 2);
        assert(r.first() != ']');
        assert(r.skip(2) =~= tail_rendered + rest);
        lemma_scan_values_render(vs.drop_first(), rest);
        assert(seq![vs.first()] + vs.drop_first() =~= vs);
    }
}

proof fn lemma_parse_line_render(k: Seq<char>, vs: Seq<Seq<char>>, rest: Seq<char>)
    ensures
        parse_line(rendered_line(k, vs) + rest) == Some(((k, vs), rest)),
        (rendered_line(k, vs) + rest).len() > 0,
        (rendered_line(k, vs) + rest).first() == '"',
{
    let s = rendered_line(k, vs) + rest;
    let r = (seq![' ', '=', ' ', '['] + rendered_values(vs)) + (seq!['\n'] + rest);
    assert(s =~= quoted(k) + r);
    lemma_parse_quoted_render(k, r);
    assert(s.first() == '"');
    assert(r[0] == ' ');
    assert(r[1] == '=');
    assert(r[2] == ' ');
    assert(r[3] == '[');
    assert(r.len() >= 4);
    assert(r.skip(4) =~= rendered_values(vs) + (seq!['\n'] + rest));
    lemma_scan_values_render(vs, seq!['\n'] + rest);
    let r2 = seq!['\n'] + rest;
    assert(r2.len() > 0);
    assert(r2.first() == '\n');
    assert(r2.drop_first() =~= rest);
}

proof fn lemma_parse_entries(m: StoreModel)
    ensures
        parse_doc(rendered_entries(m)) == Some(m),
    decreases m.len(),
{
    if m.len() == 0 {
        assert(rendered_entries(m).len() == 0);
        assert(Seq::<(Seq<char>, Seq<Seq<char>>)>::empty() =~= m);
    } else {
        let k = m.first().0;
        let vs = m.first().1;
        let rest = rendered_entries(m.drop_first());
        let s = rendered_entries(m);
        assert(s == rendered_line(k, vs) + rest);
        lemma_parse_line_render(k, vs, rest);
        lemma_parse_entries(m.drop_first());
        assert(m.first() == (k, vs));
        assert(seq![(k, vs)] + m.drop_first() =~= m);
    }
}

/// A line without a line break in it, followed by a line break, is skipped
/// whole.
proof fn lemma_after_line_skips(l: Seq<char>, x: Seq<char>)
    requires
        forall|i: int| 0 <= i < l.len() ==> (#[trigger] l[i]) != '\n',
    ensures
        after_line((l + seq!['\n']) + x) == x,
    decreases l.len(),
{
    let s = (l + seq!['\n']) + x;
    if l.len() == 0 {
        assert(s.first() == '\n');
        assert(s.drop_first() =~= x);
    } else {
        assert(s.first() == l[0]);
        assert(s.first() != '\n');
        assert forall|i: int| 0 <= i < l.drop_first().len() implies (#[trigger] l.drop_first()[i])
            != '\n' by {
            assert(l.drop_first()[i] == l[i + 1]);
        }
        lemma_after_line_skips(l.drop_first(), x);
        assert(s.drop_first() =~= (l.drop_first() + seq!['\n']) + x);
    }
}

/// Round trip: a rendered snapshot of a well-formed store parses back to
/// exactly the same store. Saving and then loading loses nothing.
pub proof fn lemma_round_trip(m: StoreModel)
    requires
        store_wf(m),
    ensures
        load_model(rendered_doc(m)) == m,
{
    let body = seq!['[', 'e', 'n', 't', 'r', 'i', 'e', 's', ']'];
    let s = rendered_doc(m);
    assert(s =~= (body + seq!['\n']) + rendered_entries(m));
    assert(s.len() > 0);
    assert(s.first() == '[');
    assert forall|i: int| 0 <= i < body.len() implies (#[trigger] body[i]) != '\n' by {}
    lemma_after_line_skips(body, rendered_entries(m));
    lemma_parse_entries(m);
    assert(parse_doc(s) == Some(m));
}

/// Relies on `String::push`: appends exactly the one character.
#[verifier::external_body]
fn push_char(s: &mut String, c: char)
    ensures
        final(s)@ == old(s)@.push(c),
{
    s.push(c);
}

pub(crate) fn chars_to_string(cs: &Vec<char>) -> (r: String)
    ensures
        r@ == cs@,
{
    let mut r = String::new();
    let mut i: usize = 0;
    while i < cs.len()
        invariant
            i <= cs.len(),
            r@ == cs@.take(i as int),
        decreases cs.len() - i,
    {
        push_char(&mut r, cs[i]);
        proof {
            assert(cs@.take(i as int).push(cs@[i as int]) =~= cs@.take(i as int + 1));
        }
        i += 1;
    }
    proof {
        assert(cs@.take(cs.len() as int) =~= cs@);
    }
    r
}

pub(crate) fn str_chars(s: &str) -> (r: Vec<char>)
    ensures
        r@ == s@,
{
    let n = s.unicode_len();
    let mut r: Vec<char> = Vec::new();
    let mut i: usize = 0;
    while i < n
        invariant
            n == s@.len(),
            i <= n,
            r@ == s@.take(i as int),
        decreases n - i,
    {
        r.push(s.get_char(i));
        proof {
            assert(s@.take(i as int).push(s@[i as int]) =~= s@.take(i as int + 1));
        }
        i += 1;
    }
    proof {
        assert(s@.take(n as int) =~= s@);
    }
    r
}

proof fn lemma_escape_snoc(s: Seq<char>, c: char)
    ensures
        escape(s.push(c)) == escape(s) + esc_char(c),
    decreases s.len(),
{
    if s.len() == 0 {
        reveal_with_fuel(escape, 2);
        assert(s.push(c).first() == c);
        assert(s.push(c).drop_first() =~= Seq::<char>::empty());
        assert(escape(s.push(c).drop_first()) == Seq::<char>::empty());
        assert(escape(s.push(c)) =~= escape(s) + esc_char(c));
    } else {
        assert(s.push(c).first() == s.first());
        assert(s.push(c).drop_first() =~= s.drop_first().push(c));
        lemma_escape_snoc(s.drop_first(), c);
        assert(esc_char(s.first()) + (escape(s.drop_first()) + esc_char(c)) =~= (esc_char(
            s.first(),
        ) + escape(s.drop_first())) + esc_char(c));
    }
}

/// Appends `s` quoted and escaped.
fn push_quoted(out: &mut Vec<char>, s: &String)
    ensures
        final(out)@ == old(out)@ + quoted(s@),
{
    let ghost o0 = out@;
    let cs = str_chars(s.as_str());
    out.push('"');
    let mut i: usize = 0;
    while i < cs.len()
        invariant
            cs@ == s@,
            i <= cs.len(),
            out@ == o0 + seq!['"'] + escape(s@.take(i as int)),
        decreases cs.len() - i,
    {
        let c = cs[i];
        let ghost before = out@;
        if c == '"' || c == '\\' {
            out.push('\\');
            out.push(c);
            proof {
                assert(out@ =~= before + seq!['\\', c]);
            }
        } else {
            out.push(c);
            proof {
                assert(out@ =~= before + seq![c]);
            }
        }
        proof {
            lemma_escape_snoc(s@.take(i as int), s@[i as int]);
            assert(s@.take(i as int).push(s@[i as int]) =~= s@.take(i as int + 1));
            assert(out@ =~= o0 + seq!['"'] + escape(s@.take(i as int + 1)));
        }
        i += 1;
    }
    out.push('"');
    proof {
        assert(s@.take(cs.len() as int) =~= s@);
        assert(out@ =~= o0 + quoted(s@));
    }
}

/// Appends the inline list of the files from position `i` on, closing
/// bracket included.
fn push_values_from(out: &mut Vec<char>, files: &Vec<String>, i: usize)
    requires
        i <= files.len(),
    ensures
        final(out)@ == old(out)@ + rendered_values(files.deep_view().skip(i as int)),
    decreases files.len() - i,
{
    let ghost o0 = out@;
    let ghost dv = files.deep_view();
    if i == files.len() {
        out.push(']');
        proof {
            assert(dv.skip(i as int) =~= Seq::<Seq<char>>::empty());
            assert(out@ =~= o0 + rendered_values(dv.skip(i as int)));
        }
    } else {
        proof {
            assert(dv[i as int] == files@[i as int]@);
            assert(dv.skip(i as int).first() == dv[i as int]);
            assert(dv.skip(i as int).drop_first() =~= dv.skip(i as int + 1));
        }
        push_quoted(out, &files[i]);
        if i + 1 == files.len() {
            out.push(']');
            proof {
                assert(dv.skip(i as int).len() == 1);
                assert(out@ =~= o0 + (quoted(dv.skip(i as int).first()) + seq![']']));
            }
        } else {
            out.push(',');
            out.push(' ');
            let ghost mid = out@;
            proof {
                assert(mid =~= o0 + quoted(dv[i as int]) + seq![',', ' ']);
            }
            push_values_from(out, files, i + 1);
            proof {
                assert(dv.skip(i as int).len() >= 2);
                assert(out@ =~= o0 + ((quoted(dv.skip(i as int).first()) + seq![',', ' '])
                    + rendered_values(dv.skip(i as int + 1))));
            }
        }
    }
}

proof fn lemma_rendered_entries_snoc(m: StoreModel, k: Seq<char>, vs: Seq<Seq<char>>)
    ensures
        rendered_entries(m.push((k, vs))) == rendered_entries(m) + rendered_line(k, vs),
    decreases m.len(),
{
    if m.len() == 0 {
        reveal_with_fuel(rendered_entries, 2);
        assert(m.push((k, vs)).first() == (k, vs));
        assert(m.push((k, vs)).drop_first() =~= Seq::<(Seq<char>, Seq<Seq<char>>)>::empty());
        assert(rendered_entries(m.push((k, vs)).drop_first()) == Seq::<char>::empty());
        assert(rendered_entries(m.push((k, vs))) =~= rendered_entries(m) + rendered_line(k, vs));
    } else {
        assert(m.push((k, vs)).first() == m.first());
        assert(m.push((k, vs)).drop_first() =~= m.drop_first().push((k, vs)));
        lemma_rendered_entries_snoc(m.drop_first(), k, vs);
        assert(rendered_line(m.first().0, m.first().1) + (rendered_entries(m.drop_first())
            + rendered_line(k, vs)) =~= (rendered_line(m.first().0, m.first().1)
            + rendered_entries(m.drop_first())) + rendered_line(k, vs));
    }
}

/// Renders the whole store as its persisted document.
pub fn to_text(m: &Memory) -> (r: String)
    ensures
        r@ == rendered_doc(m@),
{
    let mut out: Vec<char> = Vec::new();
    out.push('[');
    out.push('e');
    out.push('n');
    out.push('t');
    out.push('r');
    out.push('i');
    out.push('e');
    out.push('s');
    out.push(']');
    out.push('\n');
    proof {
        assert(out@ =~= header());
        assert(m@.take(0) =~= Seq::<(Seq<char>, Seq<Seq<char>>)>::empty());
        assert(out@ =~= header() + rendered_entries(m@.take(0)));
    }
    let n = m.entry_count();
    let mut i: usize = 0;
    while i < n
        invariant
            n == m@.len(),
            i <= n,
            out@ == header() + rendered_entries(m@.take(i as int)),
        decreases n - i,
    {
        let ghost before = out@;
        let e = m.entry_at(i);
        push_quoted(&mut out, &e.dir);
        out.push(' ');
        out.push('=');
        out.push(' ');
        out.push('[');
        push_values_from(&mut out, &e.files, 0);
        out.push('\n');
        proof {
            assert(e.files.deep_view().skip(0) =~= e.files.deep_view());
            assert(out@ =~= before + rendered_line(m@[i as int].0, m@[i as int].1));
            lemma_rendered_entries_snoc(m@.take(i as int), m@[i as int].0, m@[i as int].1);
            assert(m@.take(i as int).push((m@[i as int].0, m@[i as int].1)) =~= m@.take(
                i as int + 1,
            ));
            assert(m@[i as int] == (m@[i as int].0, m@[i as int].1));
        }
        i += 1;
    }
    proof {
        assert(m@.take(n as int) =~= m@);
    }
    chars_to_string(&out)
}

fn scan_quoted_x(s: &Vec<char>, i: usize) -> (r: Option<(Vec<char>, usize)>)
    requires
        i <= s.len(),
    ensures
        match r {
            Some(p) => p.1 <= s.len() && scan_quoted(s@.skip(i as int)) == Some(
                (p.0@, s@.skip(p.1 as int)),
            ),
            None => scan_quoted(s@.skip(i as int)) is None,
        },
    decreases s.len() - i,
{
    let ghost tail = s@.skip(i as int);
    proof {
        assert(tail.len() == s.len() - i);
        if i < s.len() {
            assert(tail.first() == s@[i as int]);
            assert(tail.drop_first() =~= s@.skip(i as int + 1));
        }
    }
    if i == s.len() {
        return None;
    }
    let c = s[i];
    if c == '"' {
        let content: Vec<char> = Vec::new();
        proof {
            assert(content@ =~= Seq::<char>::empty());
        }
        Some((content, i + 1))
    } else if c == '\\' {
        if i + 1 == s.len() {
            None
        } else {
            proof {
                assert(tail[1] == s@[i as int + 1]);
                assert(tail.skip(2) =~= s@.skip(i as int + 2));
            }
            match scan_quoted_x(s, i + 2) {
                Some((t, j)) => {
                    let mut t = t;
                    let ghost t0 = t@;
                    t.insert(0, s[i + 1]);
                    proof {
                        assert(t@ =~= seq![s@[i as int + 1]] + t0);
                    }
                    Some((t, j))
                },
                None => None,
            }
        }
    } else {
        match scan_quoted_x(s, i + 1) {
            Some((t, j)) => {
                let mut t = t;
                let ghost t0 = t@;
                t.insert(0, c);
                proof {
                    assert(t@ =~= seq![s@[i as int]] + t0);
                }
                Some((t, j))
            },
            None => None,
        }
    }
}

fn scan_values_x(s: &Vec<char>, i: usize) -> (r: Option<(Vec<String>, usize)>)
    requires
        i <= s.len(),
    ensures
        match r {
            Some(p) => p.1 <= s.len() && scan_values(s@.skip(i as int)) == Some(
                (p.0.deep_view(), s@.skip(p.1 as int)),
            ),
            None => scan_values(s@.skip(i as int)) is None,
        },
    decreases s.len() - i,
{
    let ghost tail = s@.skip(i as int);
    proof {
        assert(tail.len() == s.len() - i);
        if i < s.len() {
            assert(tail.first() == s@[i as int]);
            assert(tail.drop_first() =~= s@.skip(i as int + 1));
        }
    }
    if i < s.len() && s[i] == ']' {
        let vals: Vec<String> = Vec::new();
        proof {
            assert(vals.deep_view() =~= Seq::<Seq<char>>::empty());
        }
        return Some((vals, i + 1));
    }
    if i == s.len() {
        return None;
    }
    if !(s[i] == '"') {
        return None;
    }
    match scan_quoted_x(s, i + 1) {
        None => None,
        Some((content, j)) => {
            proof {
                lemma_scan_quoted_shrinks(s@.skip(i as int + 1));
                assert(s@.skip(j as int).len() < s@.skip(i as int + 1).len());
                if j < s.len() {
                    assert(s@.skip(j as int).first() == s@[j as int]);
                    assert(s@.skip(j as int).drop_first() =~= s@.skip(j as int + 1));
                }
            }
            let v = chars_to_string(&content);
            if j < s.len() && s[j] == ']' {
                let mut vals: Vec<String> = Vec::new();
                vals.push(v);
                proof {
                    assert(vals.deep_view() =~= seq![content@]);
                }
                Some((vals, j + 1))
            } else if j < s.len() && s.len() - j >= 2 && s[j] == ',' && s[j + 1] == ' ' {
                proof {
                    assert(s@.skip(j as int)[1] == s@[j as int + 1]);
                    assert(s@.skip(j as int).skip(2) =~= s@.skip(j as int + 2));
                }
                match scan_values_x(s, j + 2) {
                    Some((vs, j2)) => {
                        let mut vs = vs;
                        let ghost vs0 = vs.deep_view();
                        vs.insert(0, v);
                        proof {
                            assert(vs.deep_view() =~= seq![content@] + vs0);
                        }
                        Some((vs, j2))
                    },
                    None => None,
                }
            } else {
                None
            }
        },
    }
}

fn parse_line_x(s: &Vec<char>, i: usize) -> (r: Option<(MemoryEntry, usize)>)
    requires
        i <= s.len(),
    ensures
        match r {
            Some(p) => p.1 <= s.len() && parse_line(s@.skip(i as int)) == Some(
                ((p.0.dir@, p.0.files.deep_view()), s@.skip(p.1 as int)),
            ),
            None => parse_line(s@.skip(i as int)) is None,
        },
{
    let ghost tail = s@.skip(i as int);
    proof {
        assert(tail.len() == s.len() - i);
        if i < s.len() {
            assert(tail.first() == s@[i as int]);
            assert(tail.drop_first() =~= s@.skip(i as int + 1));
        }
    }
    if i == s.len() {
        return None;
    }
    if !(s[i] == '"') {
        return None;
    }
    match scan_quoted_x(s, i + 1) {
        None => None,
        Some((kcs, j)) => {
            proof {
                if j < s.len() {
                    assert(s@.skip(j as int)[0] == s@[j as int]);
                }
                if j + 1 < s.len() {
                    assert(s@.skip(j as int)[1] == s@[j as int + 1]);
                }
                if j + 2 < s.len() {
                    assert(s@.skip(j as int)[2] == s@[j as int + 2]);
                }
                if j + 3 < s.len() {
                    assert(s@.skip(j as int)[3] == s@[j as int + 3]);
                }
            }
            if j < s.len() && s.len() - j >= 4 && s[j] == ' ' && s[j + 1] == '=' && s[j + 2]
                == ' ' && s[j + 3] == '[' {
                proof {
                    assert(s@.skip(j as int).skip(4) =~= s@.skip(j as int + 4));
                }
                match scan_values_x(s, j + 4) {
                    None => None,
                    Some((files, j2)) => {
                        proof {
                            if j2 < s.len() {
                                assert(s@.skip(j2 as int).first() == s@[j2 as int]);
                                assert(s@.skip(j2 as int).drop_first() =~= s@.skip(j2 as int + 1));
                            } else {
                                assert(s@.skip(j2 as int).len() == 0);
                            }
                        }
                        if j2 == s.len() {
                            let dir = chars_to_string(&kcs);
                            Some((MemoryEntry { dir, files }, j2))
                        } else if s[j2] == '\n' {
                            let dir = chars_to_string(&kcs);
                            Some((MemoryEntry { dir, files }, j2 + 1))
                        } else {
                            None
                        }
                    },
                }
            } else {
                None
            }
        },
    }
}

fn after_line_x(s: &Vec<char>, i: usize) -> (j: usize)
    requires
        i <= s.len(),
    ensures
        i <= j <= s.len(),
        s@.skip(j as int) == after_line(s@.skip(i as int)),
        i < s.len() ==> j > i,
    decreases s.len() - i,
{
    proof {
        if i < s.len() {
            assert(s@.skip(i as int).first() == s@[i as int]);
            assert(s@.skip(i as int).drop_first() =~= s@.skip(i as int + 1));
        } else {
            assert(s@.skip(i as int).len() == 0);
        }
    }
    if i == s.len() {
        i
    } else if s[i] == '\n' {
        i + 1
    } else {
        after_line_x(s, i + 1)
    }
}

fn parse_doc_x(s: &Vec<char>, i: usize) -> (r: Option<Vec<MemoryEntry>>)
    requires
        i <= s.len(),
    ensures
        match r {
            Some(v) => parse_doc(s@.skip(i as int)) matches Some(mm) && mm.len() == v@.len()
                && forall|t: int|
                0 <= t < v@.len() ==> mm[t] == ((#[trigger] v@[t]).dir@, v@[t].files.deep_view()),
            None => parse_doc(s@.skip(i as int)) is None,
        },
    decreases s.len() - i,
{
    let ghost tail = s@.skip(i as int);
    proof {
        assert(tail.len() == s.len() - i);
        if i < s.len() {
            assert(tail.first() == s@[i as int]);
        }
    }
    if i == s.len() {
        let v: Vec<MemoryEntry> = Vec::new();
        return Some(v);
    }
    if s[i] == '"' {
        match parse_line_x(s, i) {
            None => None,
            Some((e, j)) => {
                proof {
                    lemma_parse_line_shrinks(s@.skip(i as int));
                    assert(s@.skip(j as int).len() < s@.skip(i as int).len());
                }
                match parse_doc_x(s, j) {
                    None => None,
                    Some(v) => {
                        let mut v = v;
                        let ghost v0 = v@;
                        v.insert(0, e);
                        proof {
                            let mm0 = parse_doc(s@.skip(j as int))->Some_0;
                            let mm = parse_doc(s@.skip(i as int))->Some_0;
                            assert(mm == seq![(e.dir@, e.files.deep_view())] + mm0);
                            assert(v@ =~= seq![e] + v0);
                            assert forall|t: int| 0 <= t < v@.len() implies mm[t] == ((
                            #[trigger] v@[t]).dir@, v@[t].files.deep_view()) by {
                                if t > 0 {
                                    assert(v@[t] == v0[t - 1]);
                                    assert(mm[t] == mm0[t - 1]);
                                }
                            }
                        }
                        Some(v)
                    },
                }
            },
        }
    } else {
        let j = after_line_x(s, i);
        parse_doc_x(s, j)
    }
}

/// Parses a persisted document into a store. Text that does not denote a
/// well-formed store — unparsable, duplicate directory keys, a duplicated
/// path within an entry — yields the empty store: loading never fails.
pub fn from_text(text: &str) -> (m: Memory)
    ensures
        m@ == load_model(text@),
        m.wf(),
{
    let cs = str_chars(text);
    proof {
        assert(cs@.skip(0) =~= cs@);
    }
    match parse_doc_x(&cs, 0) {
        Some(entries) => {
            let ghost dv = entries@;
            let m = Memory::from_entries(entries);
            proof {
                let mm = parse_doc(text@)->Some_0;
                assert forall|t: int| 0 <= t < m@.len() implies m@[t] == mm[t] by {
                    assert(m@[t] == ((#[trigger] dv[t]).dir@, dv[t].files.deep_view()));
                    assert(mm[t] == (dv[t].dir@, dv[t].files.deep_view()));
                }
                assert(m@ =~= mm);
            }
            if m.check_wf() {
                m
            } else {
                Memory::new()
            }
        },
        None => Memory::new(),
    }
}

} // verus!
