//! The package manifest (`lipi.toml`): the package's name and version and
//! its dependencies, each a name with a path, kept in name order. It is
//! written as a small TOML text and read back from one.

use vstd::prelude::*;
use crate::name_table::{NameTable, sorted_insert, sorted_names, lemma_insert_greatest};
use crate::tomlparse::{
    lines_spec, lines_from, next_nl, lemma_next_nl, trim_spec, trim_start_at, trim_end_at, first_index,
    lemma_first_index, line_ranges, trim_range, find_char, string_of, sub_chars,
};
use crate::text::{is_whitespace_spec, push_str, chars_eq, str_chars, str_eq};

verus! {

/// The mathematical value of a manifest.
pub struct ManifestView {
    pub name: Seq<char>,
    pub version: Seq<char>,
    pub deps: Seq<(Seq<char>, Seq<char>)>,
}

/// A package manifest: dependencies by name, each name once, in name order.
pub struct Manifest {
    pub name: String,
    pub version: String,
    pub deps: NameTable<String>,
}

impl View for Manifest {
    type V = ManifestView;

    open spec fn view(&self) -> ManifestView {
        ManifestView { name: self.name@, version: self.version@, deps: self.deps@ }
    }
}

/// A new package's manifest.
pub open spec fn default_manifest() -> ManifestView {
    ManifestView { name: "मेरा_पैकेज"@, version: "0.1.0"@, deps: seq![] }
}

// ── Writing ──────────────────────────────────────────────────────────────────

/// Lines, each followed by a line break.
pub open spec fn join_nl(ls: Seq<Seq<char>>) -> Seq<char>
    decreases ls.len(),
{
    if ls.len() == 0 {
        seq![]
    } else {
        ls[0] + seq!['\n'] + join_nl(ls.drop_first())
    }
}

/// `name = "value"`.
pub open spec fn assign_line(key: Seq<char>, value: Seq<char>) -> Seq<char> {
    key + " = \""@ + value + "\""@
}

/// The manifest's lines: the `[package]` table, an empty line, then the
/// `[dependencies]` table, one line per dependency in name order.
pub open spec fn manifest_lines(m: ManifestView) -> Seq<Seq<char>> {
    seq!["[package]"@, assign_line("name"@, m.name), assign_line("version"@, m.version), seq![], "[dependencies]"@]
        + Seq::new(m.deps.len(), |i: int| assign_line(m.deps[i].0, m.deps[i].1))
}

/// The manifest as written to `lipi.toml`.
pub open spec fn toml_spec(m: ManifestView) -> Seq<char> {
    join_nl(manifest_lines(m))
}

// ── Reading ──────────────────────────────────────────────────────────────────

/// A value with one pair of surrounding double quotes removed.
pub open spec fn unquote(v: Seq<char>) -> Seq<char> {
    if v.len() >= 2 && v[0] == '"' && v.last() == '"' {
        v.subrange(1, v.len() - 1)
    } else {
        v
    }
}

/// `key = val` read in `section`: under `[package]` it sets the name or the
/// version, under `[dependencies]` a dependency; elsewhere it is ignored.
pub open spec fn apply_assign(m: ManifestView, section: Seq<char>, key: Seq<char>, val: Seq<char>) -> ManifestView {
    if section == "package"@ {
        if key == "name"@ {
            ManifestView { name: val, ..m }
        } else if key == "version"@ {
            ManifestView { version: val, ..m }
        } else {
            m
        }
    } else if section == "dependencies"@ {
        ManifestView { deps: sorted_insert(m.deps, key, val), ..m }
    } else {
        m
    }
}

/// One line read in `section`: blank lines and `#` comments are skipped, a
/// `[name]` line opens a section, and a `key = value` line sets the name or
/// the version under `[package]` or a dependency under `[dependencies]`.
pub open spec fn read_line(m: ManifestView, section: Seq<char>, raw: Seq<char>) -> (ManifestView, Seq<char>) {
    let line = trim_spec(raw);
    if line.len() == 0 || line[0] == '#' {
        (m, section)
    } else if line[0] == '[' && line.last() == ']' {
        (m, trim_spec(line.subrange(1, line.len() - 1)))
    } else {
        let eq = first_index(line, '=', 0);
        if eq >= line.len() {
            (m, section)
        } else {
            let key = trim_spec(line.subrange(0, eq));
            let val = unquote(trim_spec(line.subrange(eq + 1, line.len() as int)));
            (apply_assign(m, section, key, val), section)
        }
    }
}

/// The manifest after reading lines `i..` in `section`.
pub open spec fn read_from(ls: Seq<Seq<char>>, i: int, m: ManifestView, section: Seq<char>) -> ManifestView
    decreases ls.len() - i,
{
    if i < 0 || i >= ls.len() {
        m
    } else {
        let (m2, s2) = read_line(m, section, ls[i]);
        read_from(ls, i + 1, m2, s2)
    }
}

/// A manifest text read over the default manifest.
pub open spec fn parse_spec(text: Seq<char>) -> ManifestView {
    read_from(lines_spec(text), 0, default_manifest(), seq![])
}

/// No line is a lone `[` (a section header cut before its own start).
pub open spec fn parse_in_range(text: Seq<char>) -> bool {
    forall|i: int| 0 <= i < lines_spec(text).len() ==> trim_spec(#[trigger] lines_spec(text)[i]) != seq!['[']
}

pub proof fn lemma_join_push(ls: Seq<Seq<char>>, x: Seq<char>)
    ensures
        join_nl(ls.push(x)) == join_nl(ls) + x + seq!['\n'],
    decreases ls.len(),
{
    if ls.len() == 0 {
        assert(ls.push(x).drop_first() =~= Seq::<Seq<char>>::empty());
        assert(join_nl(Seq::<Seq<char>>::empty()) == Seq::<char>::empty());
        assert(ls.push(x)[0] == x);
        assert(join_nl(ls.push(x)) =~= x + seq!['\n']);
    } else {
        assert(ls.push(x).drop_first() =~= ls.drop_first().push(x));
        lemma_join_push(ls.drop_first(), x);
        assert(join_nl(ls.push(x)) =~= join_nl(ls) + x + seq!['\n']);
    }
}

/// The dependency lines of `m`, in name order.
pub open spec fn dep_lines(m: ManifestView) -> Seq<Seq<char>> {
    Seq::new(m.deps.len(), |i: int| assign_line(m.deps[i].0, m.deps[i].1))
}

fn push_assign(s: &mut String, key: &str, value: &str)
    ensures
        final(s)@ == join_nl_step(old(s)@, assign_line(key@, value@)),
{
    push_str(s, key);
    push_str(s, " = \"");
    push_str(s, value);
    push_str(s, "\"");
    crate::text::push_char(s, '\n');
    assert(final(s)@ =~= old(s)@ + assign_line(key@, value@) + seq!['\n']);
}

/// `text` followed by the line `x` and a line break.
pub open spec fn join_nl_step(text: Seq<char>, x: Seq<char>) -> Seq<char> {
    text + x + seq!['\n']
}

fn push_line(s: &mut String, line: &str)
    ensures
        final(s)@ == join_nl_step(old(s)@, line@),
{
    push_str(s, line);
    crate::text::push_char(s, '\n');
    assert(final(s)@ =~= old(s)@ + line@ + seq!['\n']);
}

impl Manifest {
    /// A new package's manifest (see `default_manifest`).
    pub fn default() -> (m: Manifest)
        ensures
            m@ == default_manifest(),
    {
        Manifest { name: "मेरा_पैकेज".to_owned(), version: "0.1.0".to_owned(), deps: NameTable::new() }
    }

    /// The text of `lipi.toml` (see `toml_spec`).
    pub fn to_toml(&self) -> (s: String)
        ensures
            s@ == toml_spec(self@),
    {
        let ghost m = self@;
        let ghost head = seq!["[package]"@, assign_line("name"@, m.name), assign_line("version"@, m.version), seq![], "[dependencies]"@];
        let mut s = String::new();
        push_line(&mut s, "[package]");
        push_assign(&mut s, "name", self.name.as_str());
        push_assign(&mut s, "version", self.version.as_str());
        push_line(&mut s, "");
        push_line(&mut s, "[dependencies]");
        proof {
            let e = Seq::<Seq<char>>::empty();
            lemma_join_push(e, head[0]);
            lemma_join_push(e.push(head[0]), head[1]);
            lemma_join_push(e.push(head[0]).push(head[1]), head[2]);
            lemma_join_push(e.push(head[0]).push(head[1]).push(head[2]), head[3]);
            lemma_join_push(e.push(head[0]).push(head[1]).push(head[2]).push(head[3]), head[4]);
            assert(e.push(head[0]).push(head[1]).push(head[2]).push(head[3]).push(head[4]) =~= head);
            assert(""@ =~= Seq::<char>::empty()) by {
                reveal_strlit("");
            }
            assert(s@ =~= join_nl(head));
        }
        let ghost dl = dep_lines(m);
        let n = self.deps.len();
        let mut i: usize = 0;
        while i < n
            invariant
                n == m.deps.len(),
                m == self@,
                dl == dep_lines(m),
                i <= n,
                s@ == join_nl(head + dl.take(i as int)),
            decreases n - i,
        {
            let (k, v) = self.deps.entry(i);
            push_assign(&mut s, k.as_str(), v.as_str());
            proof {
                lemma_join_push(head + dl.take(i as int), dl[i as int]);
                assert(head + dl.take(i + 1) =~= (head + dl.take(i as int)).push(dl[i as int]));
            }
            i = i + 1;
        }
        assert(head + dl.take(n as int) =~= manifest_lines(m));
        s
    }

    /// Reads a manifest text (see `parse_spec`).
    pub fn parse(text: &str) -> (m: Manifest)
        requires
            parse_in_range(text@),
        ensures
            m@ == parse_spec(text@),
    {
        let s = str_chars(text);
        let ranges = line_ranges(&s);
        let ghost ls = lines_spec(s@);
        let pkg = str_chars("package");
        let deps = str_chars("dependencies");
        let mut m = Manifest::default();
        let mut section: Vec<char> = Vec::new();
        let mut i: usize = 0;
        while i < ranges.len()
            invariant
                s@ == text@,
                ls == lines_spec(s@),
                parse_in_range(s@),
                pkg@ == "package"@,
                deps@ == "dependencies"@,
                ranges@.len() == ls.len(),
                forall|k: int| 0 <= k < ranges@.len() ==> (#[trigger] ranges@[k]).0 <= ranges@[k].1 <= s@.len()
                    && s@.subrange(ranges@[k].0 as int, ranges@[k].1 as int) == ls[k],
                i <= ranges@.len(),
                read_from(ls, i as int, m@, section@) == read_from(ls, 0, default_manifest(), seq![]),
            decreases ranges@.len() - i,
        {
            let (la, lb) = ranges[i];
            let (a, b) = trim_range(s.as_slice(), la, lb);
            let ghost line = s@.subrange(a as int, b as int);
            assert(line == trim_spec(ls[i as int]));
            if a == b {
                i = i + 1;
                continue;
            }
            assert(line[0] == s@[a as int] && line.last() == s@[b - 1]);
            if s[a] == '#' {
                i = i + 1;
                continue;
            }
            if s[a] == '[' && s[b - 1] == ']' {
                if b - a < 2 {
                    assert(line =~= seq!['[']);
                    assert(trim_spec(ls[i as int]) != seq!['[']);
                }
                let (c, d) = trim_range(s.as_slice(), a + 1, b - 1);
                assert(s@.subrange(a + 1, b - 1) =~= line.subrange(1, line.len() - 1));
                section = sub_chars(s.as_slice(), c, d);
                i = i + 1;
                continue;
            }
            let eq = find_char(s.as_slice(), a, b, '=');
            if eq < b {
                let (ka, kb) = trim_range(s.as_slice(), a, eq);
                assert(s@.subrange(a as int, eq as int) =~= line.subrange(0, eq - a));
                let (va0, vb0) = trim_range(s.as_slice(), eq + 1, b);
                assert(s@.subrange(eq + 1, b as int) =~= line.subrange(eq - a + 1, line.len() as int));
                let ghost tv = s@.subrange(va0 as int, vb0 as int);
                let (va, vb) = if vb0 - va0 >= 2 && s[va0] == '"' && s[vb0 - 1] == '"' {
                    (va0 + 1, vb0 - 1)
                } else {
                    (va0, vb0)
                };
                assert(s@.subrange(va as int, vb as int) =~= unquote(tv)) by {
                    if vb0 - va0 >= 2 {
                        assert(tv[0] == s@[va0 as int] && tv.last() == s@[vb0 - 1]);
                    }
                }
                let key = string_of(s.as_slice(), ka, kb);
                let val = string_of(s.as_slice(), va, vb);
                if chars_eq(section.as_slice(), pkg.as_slice()) {
                    if str_eq(key.as_str(), "name") {
                        m.name = val;
                    } else if str_eq(key.as_str(), "version") {
                        m.version = val;
                    }
                } else if chars_eq(section.as_slice(), deps.as_slice()) {
                    m.deps.insert(key, val);
                }
            }
            i = i + 1;
        }
        m
    }
}

/// Whether `Manifest::parse` can read `text` (see `parse_in_range`).
pub fn manifest_in_range(text: &str) -> (b: bool)
    ensures
        b == parse_in_range(text@),
{
    let s = str_chars(text);
    let ranges = line_ranges(&s);
    let ghost ls = lines_spec(s@);
    let mut i: usize = 0;
    while i < ranges.len()
        invariant
            s@ == text@,
            ls == lines_spec(s@),
            ranges@.len() == ls.len(),
            forall|k: int| 0 <= k < ranges@.len() ==> (#[trigger] ranges@[k]).0 <= ranges@[k].1 <= s@.len()
                && s@.subrange(ranges@[k].0 as int, ranges@[k].1 as int) == ls[k],
            i <= ranges@.len(),
            forall|k: int| 0 <= k < i ==> trim_spec(#[trigger] ls[k]) != seq!['['],
        decreases ranges@.len() - i,
    {
        let (la, lb) = ranges[i];
        let (a, b) = trim_range(s.as_slice(), la, lb);
        let ghost line = s@.subrange(a as int, b as int);
        assert(line == trim_spec(ls[i as int]));
        if b - a == 1 && s[a] == '[' {
            assert(line =~= seq!['[']);
            return false;
        }
        assert(line != seq!['[']) by {
            if line.len() == 1 {
                assert(line[0] == s@[a as int]);
            }
        }
        i = i + 1;
    }
    true
}

// ── Writing then reading ─────────────────────────────────────────────────────

/// A text that stays on one line.
pub open spec fn one_line(v: Seq<char>) -> bool {
    forall|i: int| 0 <= i < v.len() ==> v[i] != '\n'
}

/// A dependency name that reads back as itself: on one line, without `=`,
/// without whitespace at either end, and not starting with `#`.
pub open spec fn plain_key(k: Seq<char>) -> bool {
    &&& one_line(k)
    &&& forall|i: int| 0 <= i < k.len() ==> k[i] != '='
    &&& k.len() > 0 ==> !is_whitespace_spec(k[0]) && !is_whitespace_spec(k.last()) && k[0] != '#'
}

/// A line that `lines_spec` gives back unchanged.
spec fn whole_line(l: Seq<char>) -> bool {
    one_line(l) && (l.len() == 0 || l.last() != '\r')
}

proof fn lemma_next_nl_shift(p: Seq<char>, t: Seq<char>, j: int)
    requires
        0 <= j <= t.len(),
    ensures
        next_nl(p + t, p.len() + j) == p.len() + next_nl(t, j),
    decreases t.len() - j,
{
    if j < t.len() {
        assert((p + t)[p.len() + j] == t[j]);
        if t[j] != '\n' {
            lemma_next_nl_shift(p, t, j + 1);
        }
    }
}

proof fn lemma_lines_shift(p: Seq<char>, t: Seq<char>, j: int)
    requires
        0 <= j <= t.len(),
    ensures
        lines_from(p + t, p.len() + j) == lines_from(t, j),
    decreases t.len() - j,
{
    if j < t.len() {
        let s = p + t;
        lemma_next_nl_shift(p, t, j);
        lemma_next_nl(t, j);
        let e = next_nl(t, j);
        assert(s.subrange(p.len() + j, p.len() + e) =~= t.subrange(j, e));
        if e < t.len() {
            lemma_lines_shift(p, t, e + 1);
        }
    }
}

proof fn lemma_nl_at_end(l: Seq<char>, t: Seq<char>, k: int)
    requires
        one_line(l),
        0 <= k <= l.len(),
    ensures
        next_nl(l + seq!['\n'] + t, k) == l.len(),
    decreases l.len() - k,
{
    let s = l + seq!['\n'] + t;
    if k < l.len() {
        assert(s[k] == l[k]);
        lemma_nl_at_end(l, t, k + 1);
    } else {
        assert(s[k] == '\n');
    }
}

proof fn lemma_lines_join(ls: Seq<Seq<char>>)
    requires
        forall|i: int| 0 <= i < ls.len() ==> whole_line(#[trigger] ls[i]),
    ensures
        lines_spec(join_nl(ls)) == ls,
    decreases ls.len(),
{
    if ls.len() == 0 {
        assert(lines_spec(join_nl(ls)) =~= ls);
    } else {
        let l = ls[0];
        let rest = ls.drop_first();
        assert forall|i: int| 0 <= i < rest.len() implies whole_line(#[trigger] rest[i]) by {
            assert(rest[i] == ls[i + 1]);
        }
        lemma_lines_join(rest);
        let t = join_nl(rest);
        let s = l + seq!['\n'] + t;
        assert(join_nl(ls) == s);
        assert(whole_line(l));
        lemma_nl_at_end(l, t, 0);
        assert(s.subrange(0, l.len() as int) =~= l);
        if l.len() > 0 {
            assert(s.subrange(0, l.len() as int).last() == l.last());
        }
        lemma_lines_shift(l + seq!['\n'], t, 0);
        assert(lines_from(s, l.len() + 1int) == lines_from(t, 0));
        assert(lines_from(s, 0) == seq![l] + lines_from(t, 0));
        assert(seq![l] + rest =~= ls);
    }
}

/// Trimming leaves a text alone that has no whitespace at either end.
proof fn lemma_trim_id(s: Seq<char>)
    requires
        s.len() > 0 ==> !is_whitespace_spec(s[0]) && !is_whitespace_spec(s.last()),
    ensures
        trim_spec(s) == s,
{
    if s.len() > 0 {
        assert(trim_start_at(s, 0) == 0);
        assert(trim_end_at(s, 0, s.len() as int) == s.len());
    } else {
        assert(trim_start_at(s, 0) == 0);
    }
    assert(s.subrange(0, s.len() as int) =~= s);
}

proof fn lemma_first_index_at(s: Seq<char>, c: char, i: int, j: int)
    requires
        0 <= i <= j < s.len(),
        s[j] == c,
        forall|k: int| i <= k < j ==> s[k] != c,
    ensures
        first_index(s, c, i) == j,
    decreases j - i,
{
    if i < j {
        lemma_first_index_at(s, c, i + 1, j);
    }
}

/// Reading a `key = "value"` line applies it.
proof fn lemma_read_assign(m: ManifestView, section: Seq<char>, key: Seq<char>, val: Seq<char>)
    requires
        plain_key(key),
    ensures
        read_line(m, section, assign_line(key, val)) == (apply_assign(m, section, key, val), section),
        trim_spec(assign_line(key, val)).len() >= 4,
{
    reveal_strlit(" = \"");
    reveal_strlit("\"");
    let l = assign_line(key, val);
    let n = key.len() as int;
    assert(l == key + " = \""@ + val + "\""@);
    assert(l.len() == n + 5 + val.len());
    assert(l[n] == ' ' && l[n + 1] == '=' && l[n + 2] == ' ' && l[n + 3] == '"');
    assert(l.last() == '"');
    assert forall|k: int| 0 <= k < n implies l[k] == key[k] by {}
    // what follows `=`: ` "value"`
    let after = l.subrange(n + 2, l.len() as int);
    assert(after =~= " \""@ + val + "\""@) by {
        reveal_strlit(" \"");
    }
    assert(trim_start_at(after, 0) == 1) by {
        assert(after[0] == ' ' && after[1] == '"');
        assert(trim_start_at(after, 1) == 1);
    }
    assert(trim_end_at(after, 1, after.len() as int) == after.len()) by {
        assert(after.last() == '"');
    }
    let quoted = after.subrange(1, after.len() as int);
    assert(trim_spec(after) == quoted);
    assert(quoted.len() >= 2 && quoted[0] == '"' && quoted.last() == '"');
    assert(unquote(quoted) =~= val);
    if n > 0 {
        assert(l[0] == key[0]);
        assert(trim_start_at(l, 0) == 0);
        assert(trim_end_at(l, 0, l.len() as int) == l.len());
        assert(l.subrange(0, l.len() as int) =~= l);
        let line = trim_spec(l);
        assert(line == l);
        lemma_first_index_at(line, '=', 0, n + 1);
        let kp = line.subrange(0, n + 1);
        assert(kp =~= key.push(' '));
        assert(trim_start_at(kp, 0) == 0) by {
            assert(kp[0] == key[0]);
        }
        assert(trim_end_at(kp, 0, n + 1) == n) by {
            assert(kp[n] == ' ');
            assert(kp[n - 1] == key.last());
            assert(trim_end_at(kp, 0, n) == n);
        }
        assert(trim_spec(kp) =~= key);
        assert(line.subrange(n + 2, line.len() as int) == after);
    } else {
        assert(l =~= " = \""@ + val + "\""@);
        assert(trim_start_at(l, 1) == 1) by {
            assert(l[1] == '=');
        }
        assert(trim_start_at(l, 0) == 1);
        assert(trim_end_at(l, 1, l.len() as int) == l.len());
        let line = trim_spec(l);
        assert(line =~= l.subrange(1, l.len() as int));
        assert(line[0] == '=');
        assert(first_index(line, '=', 0) == 0);
        assert(trim_spec(line.subrange(0, 0)) =~= key) by {
            assert(trim_start_at(line.subrange(0, 0), 0) == 0);
        }
        assert(line.subrange(1, line.len() as int) =~= after);
    }
}

/// Reading the dependency lines from the `k`-th on rebuilds the rest of the
/// table, the names coming in ascending order.
proof fn lemma_read_deps(m: ManifestView, k: int)
    requires
        0 <= k <= m.deps.len(),
        sorted_names(m.deps),
        forall|i: int| 0 <= i < m.deps.len() ==> plain_key(#[trigger] m.deps[i].0),
    ensures
        read_from(manifest_lines(m), 5 + k, ManifestView { deps: m.deps.take(k), ..m }, "dependencies"@) == m,
    decreases m.deps.len() - k,
{
    let ls = manifest_lines(m);
    let cur = ManifestView { deps: m.deps.take(k), ..m };
    if k < m.deps.len() {
        let (key, val) = m.deps[k];
        assert(ls[5 + k] == assign_line(key, val));
        lemma_read_assign(cur, "dependencies"@, key, val);
        assert("dependencies"@ != "package"@) by {
            reveal_strlit("dependencies");
            reveal_strlit("package");
            assert("dependencies"@.len() != "package"@.len());
        }
        assert forall|i: int| 0 <= i < m.deps.take(k).len() implies crate::name_table::name_lt(
            #[trigger] m.deps.take(k)[i].0,
            key,
        ) by {
            assert(m.deps.take(k)[i] == m.deps[i]);
        }
        lemma_insert_greatest(m.deps.take(k), key, val);
        assert(m.deps.take(k).push((key, val)) =~= m.deps.take(k + 1));
        lemma_read_deps(m, k + 1);
    } else {
        assert(m.deps.take(k) =~= m.deps);
    }
}

/// Reading back what `to_toml` writes gives the same manifest, when the
/// name, the version and each dependency's path stay on one line and each
/// dependency's name is plain (see `plain_key`); such a text can always be
/// read.
pub proof fn law_manifest_round_trip(m: ManifestView)
    requires
        sorted_names(m.deps),
        one_line(m.name),
        one_line(m.version),
        forall|i: int| 0 <= i < m.deps.len() ==> plain_key(#[trigger] m.deps[i].0) && one_line(m.deps[i].1),
    ensures
        parse_in_range(toml_spec(m)),
        parse_spec(toml_spec(m)) == m,
{
    reveal_strlit("[package]");
    reveal_strlit("[dependencies]");
    reveal_strlit("package");
    reveal_strlit("dependencies");
    reveal_strlit("name");
    reveal_strlit("version");
    reveal_strlit(" = \"");
    reveal_strlit("\"");
    let ls = manifest_lines(m);
    assert forall|i: int| 0 <= i < ls.len() implies whole_line(#[trigger] ls[i]) by {
        if i >= 5 {
            let (k, v) = m.deps[i - 5];
            assert(ls[i] == assign_line(k, v));
            assert(ls[i] =~= k + " = \""@ + v + "\""@);
            assert forall|j: int| 0 <= j < ls[i].len() implies ls[i][j] != '\n' by {
                if j < k.len() {
                    assert(ls[i][j] == k[j]);
                } else if j >= k.len() + 4 && j < k.len() + 4 + v.len() {
                    assert(ls[i][j] == v[j - k.len() - 4]);
                }
            }
        } else if i == 1 || i == 2 {
            let v = if i == 1 { m.name } else { m.version };
            let k = if i == 1 { "name"@ } else { "version"@ };
            assert(ls[i] =~= k + " = \""@ + v + "\""@);
            assert forall|j: int| 0 <= j < ls[i].len() implies ls[i][j] != '\n' by {
                if j >= k.len() + 4 && j < k.len() + 4 + v.len() {
                    assert(ls[i][j] == v[j - k.len() - 4]);
                }
            }
        }
    }
    lemma_lines_join(ls);
    assert(lines_spec(toml_spec(m)) == ls);
    // the header lines
    let d = default_manifest();
    let e = Seq::<char>::empty();
    lemma_trim_id("[package]"@);
    lemma_trim_id("package"@);
    assert("[package]"@.subrange(1, 8) =~= "package"@);
    assert(read_line(d, e, ls[0]) == (d, "package"@));
    let m1 = ManifestView { name: m.name, ..d };
    let m2 = ManifestView { version: m.version, ..m1 };
    lemma_read_assign(d, "package"@, "name"@, m.name);
    assert(read_line(d, "package"@, ls[1]) == (m1, "package"@));
    lemma_read_assign(m1, "package"@, "version"@, m.version);
    assert("version"@ != "name"@);
    assert(read_line(m1, "package"@, ls[2]) == (m2, "package"@));
    assert(trim_spec(ls[3]) =~= e) by {
        assert(trim_start_at(ls[3], 0) == 0);
    }
    assert(read_line(m2, "package"@, ls[3]) == (m2, "package"@));
    lemma_trim_id("[dependencies]"@);
    lemma_trim_id("dependencies"@);
    assert("[dependencies]"@.subrange(1, 13) =~= "dependencies"@);
    assert(read_line(m2, "package"@, ls[4]) == (m2, "dependencies"@));
    assert(m2 == ManifestView { deps: m.deps.take(0), ..m }) by {
        assert(m.deps.take(0) =~= Seq::<(Seq<char>, Seq<char>)>::empty());
    }
    lemma_read_deps(m, 0);
    assert(read_from(ls, 4, m2, "package"@) == m);
    assert(read_from(ls, 3, m2, "package"@) == m);
    assert(read_from(ls, 2, m1, "package"@) == m);
    assert(read_from(ls, 1, d, "package"@) == m);
    assert(read_from(ls, 0, d, e) == m);
    // every line can be read
    assert forall|i: int| 0 <= i < lines_spec(toml_spec(m)).len() implies trim_spec(
        #[trigger] lines_spec(toml_spec(m))[i],
    ) != seq!['['] by {
        if i >= 5 {
            let (k, v) = m.deps[i - 5];
            assert(ls[i] == assign_line(k, v));
            lemma_read_assign(d, e, k, v);
        } else if i == 1 {
            lemma_read_assign(d, e, "name"@, m.name);
        } else if i == 2 {
            lemma_read_assign(d, e, "version"@, m.version);
        } else if i == 3 {
            assert(trim_spec(ls[3]) =~= e) by {
                assert(trim_start_at(ls[3], 0) == 0);
            }
        }
    }
}
} // verus!
