//! भारत.एक्सएमएल — reading XML (and XHTML-like HTML) into a tree of tables:
//! each element is { नाम: tag, गुण: {attributes}, बच्चे: [child elements],
//! पाठ: text }. Comments, the `<?xml ?>` declaration and `<!DOCTYPE>` are
//! skipped; every tag must be closed.

use vstd::prelude::*;
use crate::text::{occurs_at, occurs_chars, first_occ_from, lemma_first_occ_from, str_chars, push_chars, push_str};
use crate::tomlparse::{ConfValue, ConfModel, cv, dict_view, list_view, dict_set, trim_spec, trim_range, find_key,
    lemma_key_index, key_index};

verus! {

/// The whitespace `u8::is_ascii_whitespace` accepts.
pub open spec fn xml_ws(c: char) -> bool {
    c == ' ' || c == '\t' || c == '\n' || c == '\r' || c == '\x0C'
}

/// The character at `i`, or NUL past the end.
pub open spec fn peek(s: Seq<char>, i: int) -> char {
    if 0 <= i < s.len() {
        s[i]
    } else {
        '\0'
    }
}

pub open spec fn skip_ws(s: Seq<char>, i: int) -> int
    decreases s.len() - i,
{
    if 0 <= i < s.len() && xml_ws(s[i]) {
        skip_ws(s, i + 1)
    } else {
        i
    }
}

/// The end of a name: the first whitespace, `>`, `/` or `=` (or the end).
pub open spec fn name_end(s: Seq<char>, i: int) -> int
    decreases s.len() - i,
{
    if 0 <= i < s.len() && !(xml_ws(s[i]) || s[i] == '>' || s[i] == '/' || s[i] == '=') {
        name_end(s, i + 1)
    } else {
        i
    }
}

/// The first `c` at or after `i` (or the end).
pub open spec fn char_from(s: Seq<char>, c: char, i: int) -> int
    decreases s.len() - i,
{
    if 0 <= i < s.len() && s[i] != c {
        char_from(s, c, i + 1)
    } else {
        i
    }
}

/// Comments, declarations and doctypes (and the whitespace around them)
/// skipped from `i` on; an unclosed one runs to the end.
pub open spec fn skip_junk(s: Seq<char>, i: int) -> int
    decreases s.len() + 1 - i,
{
    let j = skip_ws(s, i);
    if j < 0 || j >= s.len() {
        j
    } else if occurs_at(s, j, "<!--"@) {
        let e = first_occ_from(s, "-->"@, j);
        if e < s.len() && e + 3 > i {
            proof {
                reveal_strlit("-->");
                lemma_first_occ_from(s, "-->"@, j);
            }
            skip_junk(s, e + 3)
        } else {
            s.len() as int
        }
    } else if occurs_at(s, j, "<?"@) {
        let e = first_occ_from(s, "?>"@, j);
        if e < s.len() && e + 2 > i {
            proof {
                reveal_strlit("?>");
                lemma_first_occ_from(s, "?>"@, j);
            }
            skip_junk(s, e + 2)
        } else {
            s.len() as int
        }
    } else if occurs_at(s, j, "<!"@) {
        let e = char_from(s, '>', j);
        if e < s.len() && e + 1 > i {
            skip_junk(s, e + 1)
        } else {
            s.len() as int
        }
    } else {
        j
    }
}

/// `s` with every `pat` (left to right, not overlapping) from `i` on replaced by `rep`.
pub open spec fn replace_from(s: Seq<char>, pat: Seq<char>, rep: Seq<char>, i: int) -> Seq<char>
    decreases s.len() - i,
{
    if i < 0 || i >= s.len() || pat.len() == 0 {
        if 0 <= i <= s.len() { s.subrange(i, s.len() as int) } else { seq![] }
    } else if occurs_at(s, i, pat) {
        rep + replace_from(s, pat, rep, i + pat.len())
    } else {
        seq![s[i]] + replace_from(s, pat, rep, i + 1)
    }
}

pub open spec fn replace_spec(s: Seq<char>, pat: Seq<char>, rep: Seq<char>) -> Seq<char> {
    replace_from(s, pat, rep, 0)
}

/// The five predefined entities decoded, `&amp;` last.
pub open spec fn decode_spec(s: Seq<char>) -> Seq<char> {
    replace_spec(
        replace_spec(
            replace_spec(replace_spec(replace_spec(s, "&lt;"@, "<"@), "&gt;"@, ">"@), "&quot;"@, "\""@),
            "&apos;"@,
            "'"@,
        ),
        "&amp;"@,
        "&"@,
    )
}

/// An attribute's value from `i` (just after its name): `= "..."` or
/// `= '...'` gives the decoded text, anything else the empty text; and the
/// position after it.
pub open spec fn attr_value(s: Seq<char>, i: int) -> (Seq<char>, int) {
    let i2 = skip_ws(s, i);
    if peek(s, i2) == '=' {
        let i3 = skip_ws(s, i2 + 1);
        let q = peek(s, i3);
        if q == '"' || q == '\'' {
            let k = char_from(s, q, i3 + 1);
            (decode_spec(s.subrange(i3 + 1, k)), k + 1)
        } else {
            (seq![], i3)
        }
    } else {
        (seq![], i2)
    }
}

/// The attributes from `i` on, added to `attrs`, and where they end.
pub open spec fn attrs_spec(s: Seq<char>, i: int, attrs: Seq<(Seq<char>, ConfModel)>) -> (Seq<(Seq<char>, ConfModel)>, int)
    decreases s.len() + 2 - i,
{
    let i1 = skip_ws(s, i);
    let c = peek(s, i1);
    if i < 0 || c == '>' || c == '/' || c == '\0' {
        (attrs, i1)
    } else {
        let e = name_end(s, i1);
        if e <= i1 || e > s.len() {
            (attrs, i1)
        } else {
            let (v, i4) = attr_value(s, e);
            if i4 <= i || i4 > s.len() + 1 {
                (attrs, i1)
            } else {
                attrs_spec(s, i4, dict_set(attrs, s.subrange(i1, e), ConfModel::Str(v)))
            }
        }
    }
}

/// An element as a table.
pub open spec fn elem_model(name: Seq<char>, attrs: Seq<(Seq<char>, ConfModel)>, children: Seq<ConfModel>, text: Seq<char>) -> ConfModel {
    ConfModel::Dict(
        seq![
            ("नाम"@, ConfModel::Str(name)),
            ("गुण"@, ConfModel::Dict(attrs)),
            ("बच्चे"@, ConfModel::List(children)),
            ("पाठ"@, ConfModel::Str(text)),
        ],
    )
}

pub open spec fn unclosed_msg(name: Seq<char>) -> Seq<char> {
    "एक्सएमएल: <"@ + name + "> बंद नहीं हुआ"@
}

/// Text joined to the element's text so far, a space between.
pub open spec fn join_text(text: Seq<char>, t: Seq<char>) -> Seq<char> {
    if t.len() == 0 {
        text
    } else if text.len() == 0 {
        t
    } else {
        text + seq![' '] + t
    }
}

/// An element starting at `i` (after skipped junk): the element and the
/// position after its closing tag.
pub open spec fn elem_spec(s: Seq<char>, i: int) -> Result<(ConfModel, int), Seq<char>>
    decreases s.len() + 2 - i, 0int,
{
    let i1 = skip_junk(s, i);
    if i < 0 || i1 < i || peek(s, i1) != '<' {
        Err("एक्सएमएल: '<' अपेक्षित"@)
    } else {
        let i2 = i1 + 1;
        let e = name_end(s, i2);
        if e <= i2 {
            Err("एक्सएमएल: टैग नाम खाली"@)
        } else {
            let name = s.subrange(i2, e);
            let (attrs, i3) = attrs_spec(s, e, seq![]);
            let i4 = skip_ws(s, i3);
            if i3 < e || i4 < i3 || i4 > s.len() + 1 {
                Err(seq![])
            } else if peek(s, i4) == '/' {
                let i5 = i4 + 1;
                Ok((elem_model(name, attrs, seq![], seq![]), if peek(s, i5) == '>' { i5 + 1 } else { i5 }))
            } else {
                content_spec(s, if peek(s, i4) == '>' { i4 + 1 } else { i4 }, name, attrs, seq![], seq![])
            }
        }
    }
}

/// An element's content from `i` on, up to its closing tag: child elements,
/// text pieces (trimmed, decoded, joined by spaces), skipped comments.
pub open spec fn content_spec(s: Seq<char>, i: int, name: Seq<char>, attrs: Seq<(Seq<char>, ConfModel)>, children: Seq<ConfModel>, text: Seq<char>) -> Result<(ConfModel, int), Seq<char>>
    decreases s.len() + 2 - i, 1int,
{
    if i < 0 || i >= s.len() {
        Err(unclosed_msg(name))
    } else if occurs_at(s, i, "</"@) {
        let j = name_end(s, i + 2);
        let k = skip_ws(s, j);
        Ok((elem_model(name, attrs, children, text), if peek(s, k) == '>' { k + 1 } else { k }))
    } else if occurs_at(s, i, "<!--"@) && first_occ_from(s, "-->"@, i) < s.len() {
        let e = first_occ_from(s, "-->"@, i);
        if e + 3 <= i {
            Err(seq![])
        } else {
            content_spec(s, e + 3, name, attrs, children, text)
        }
    } else if s[i] == '<' {
        match elem_spec(s, i) {
            Err(e) => Err(e),
            Ok((child, i2)) => if i2 <= i || i2 > s.len() + 1 {
                Err(seq![])
            } else {
                content_spec(s, i2, name, attrs, children.push(child), text)
            },
        }
    } else {
        let j = char_from(s, '<', i);
        if j <= i || j > s.len() {
            Err(seq![])
        } else {
            content_spec(s, j, name, attrs, children, join_text(text, decode_spec(trim_spec(s.subrange(i, j)))))
        }
    }
}

/// A document's root element.
pub open spec fn xml_spec(s: Seq<char>) -> Result<ConfModel, Seq<char>> {
    match elem_spec(s, 0) {
        Err(e) => Err(e),
        Ok((m, _)) => Ok(m),
    }
}

// ── Reading ──────────────────────────────────────────────────────────────────

fn is_xml_ws(c: char) -> (b: bool)
    ensures
        b == xml_ws(c),
{
    c == ' ' || c == '\t' || c == '\n' || c == '\r' || c == '\x0C'
}

fn peek_at(s: &Vec<char>, i: usize) -> (c: char)
    ensures
        c == peek(s@, i as int),
{
    if i < s.len() {
        s[i]
    } else {
        '\0'
    }
}

proof fn lemma_scans(s: Seq<char>, i: int, c: char)
    requires
        0 <= i <= s.len(),
    ensures
        i <= skip_ws(s, i) <= s.len(),
        i <= name_end(s, i) <= s.len(),
        i <= char_from(s, c, i) <= s.len(),
    decreases s.len() - i,
{
    if i < s.len() {
        lemma_scans(s, i + 1, c);
    }
}

fn skip_ws_at(s: &Vec<char>, i: usize) -> (r: usize)
    requires
        i <= s@.len(),
    ensures
        r == skip_ws(s@, i as int),
        i <= r <= s@.len(),
{
    proof {
        lemma_scans(s@, i as int, ' ');
    }
    let mut j = i;
    while j < s.len() && is_xml_ws(s[j])
        invariant
            i <= j <= s@.len(),
            skip_ws(s@, j as int) == skip_ws(s@, i as int),
        decreases s@.len() - j,
    {
        j = j + 1;
    }
    j
}

fn name_end_at(s: &Vec<char>, i: usize) -> (r: usize)
    requires
        i <= s@.len(),
    ensures
        r == name_end(s@, i as int),
        i <= r <= s@.len(),
{
    proof {
        lemma_scans(s@, i as int, ' ');
    }
    let mut j = i;
    while j < s.len() && !(is_xml_ws(s[j]) || s[j] == '>' || s[j] == '/' || s[j] == '=')
        invariant
            i <= j <= s@.len(),
            name_end(s@, j as int) == name_end(s@, i as int),
        decreases s@.len() - j,
    {
        j = j + 1;
    }
    j
}

fn char_from_at(s: &Vec<char>, c: char, i: usize) -> (r: usize)
    requires
        i <= s@.len(),
    ensures
        r == char_from(s@, c, i as int),
        i <= r <= s@.len(),
{
    proof {
        lemma_scans(s@, i as int, c);
    }
    let mut j = i;
    while j < s.len() && s[j] != c
        invariant
            i <= j <= s@.len(),
            char_from(s@, c, j as int) == char_from(s@, c, i as int),
        decreases s@.len() - j,
    {
        j = j + 1;
    }
    j
}

/// The first occurrence of `p` at or after `i` (or the end).
fn occ_from(s: &Vec<char>, p: &Vec<char>, i: usize) -> (r: usize)
    requires
        i <= s@.len(),
        p@.len() > 0,
    ensures
        r == first_occ_from(s@, p@, i as int),
        i <= r <= s@.len(),
{
    proof {
        lemma_first_occ_from(s@, p@, i as int);
    }
    let mut j = i;
    while j < s.len() && !occurs_chars(s, j, p)
        invariant
            i <= j <= s@.len(),
            p@.len() > 0,
            first_occ_from(s@, p@, j as int) == first_occ_from(s@, p@, i as int),
        decreases s@.len() - j,
    {
        j = j + 1;
    }
    j
}

fn skip_junk_at(s: &Vec<char>, i: usize) -> (r: usize)
    requires
        i <= s@.len(),
    ensures
        r == skip_junk(s@, i as int),
        i <= r <= s@.len(),
{
    let open_c = str_chars("<!--");
    let close_c = str_chars("-->");
    let open_q = str_chars("<?");
    let close_q = str_chars("?>");
    let open_d = str_chars("<!");
    let ghost total = skip_junk(s@, i as int);
    let mut k = i;
    loop
        invariant
            i <= k <= s@.len(),
            open_c@ == "<!--"@,
            close_c@ == "-->"@,
            open_q@ == "<?"@,
            close_q@ == "?>"@,
            open_d@ == "<!"@,
            skip_junk(s@, k as int) == total,
            total == skip_junk(s@, i as int),
        decreases s@.len() + 1 - k,
    {
        proof {
            reveal_strlit("-->");
            reveal_strlit("?>");
        }
        let j = skip_ws_at(s, k);
        if j >= s.len() {
            return j;
        }
        if occurs_chars(s, j, &open_c) {
            let e = occ_from(s, &close_c, j);
            if e < s.len() {
                proof {
                    lemma_first_occ_from(s@, "-->"@, j as int);
                }
                k = e + 3;
                continue;
            }
            return s.len();
        }
        if occurs_chars(s, j, &open_q) {
            let e = occ_from(s, &close_q, j);
            if e < s.len() {
                proof {
                    lemma_first_occ_from(s@, "?>"@, j as int);
                }
                k = e + 2;
                continue;
            }
            return s.len();
        }
        if occurs_chars(s, j, &open_d) {
            let e = char_from_at(s, '>', j);
            if e < s.len() {
                k = e + 1;
                continue;
            }
            return s.len();
        }
        return j;
    }
}

proof fn lemma_occurs_fits(s: Seq<char>, i: int, p: Seq<char>)
    requires
        occurs_at(s, i, p),
    ensures
        i + p.len() <= s.len(),
{
}

/// One pass of `replace_spec`.
pub(crate) fn replace_pass(s: &Vec<char>, pat: &str, rep: &str) -> (r: Vec<char>)
    ensures
        r@ == replace_spec(s@, pat@, rep@),
{
    let p = str_chars(pat);
    let rc = str_chars(rep);
    let ghost total = replace_spec(s@, pat@, rep@);
    let mut out: Vec<char> = Vec::new();
    if p.len() == 0 {
        let mut k: usize = 0;
        while k < s.len()
            invariant
                k <= s@.len(),
                out@ == s@.subrange(0, k as int),
            decreases s@.len() - k,
        {
            out.push(s[k]);
            k = k + 1;
            assert(out@ =~= s@.subrange(0, k as int));
        }
        return out;
    }
    let mut i: usize = 0;
    while i < s.len()
        invariant
            i <= s@.len(),
            p@ == pat@,
            rc@ == rep@,
            p@.len() > 0,
            out@ + replace_from(s@, pat@, rep@, i as int) == total,
            total == replace_spec(s@, pat@, rep@),
        decreases s@.len() - i,
    {
        let ghost before = out@;
        if occurs_chars(s, i, &p) {
            proof {
                lemma_occurs_fits(s@, i as int, p@);
            }
            let mut k: usize = 0;
            while k < rc.len()
                invariant
                    k <= rc@.len(),
                    out@ == before + rc@.subrange(0, k as int),
                decreases rc@.len() - k,
            {
                out.push(rc[k]);
                k = k + 1;
                assert(out@ =~= before + rc@.subrange(0, k as int));
            }
            assert(rc@.subrange(0, rc@.len() as int) =~= rc@);
            assert(before + (rep@ + replace_from(s@, pat@, rep@, i + p@.len())) =~= out@ + replace_from(s@, pat@, rep@, i + p@.len()));
            i = i + p.len();
        } else {
            out.push(s[i]);
            assert(before + (seq![s@[i as int]] + replace_from(s@, pat@, rep@, i + 1)) =~= out@ + replace_from(s@, pat@, rep@, i + 1));
            i = i + 1;
        }
    }
    assert(replace_from(s@, pat@, rep@, i as int) =~= Seq::<char>::empty());
    assert(out@ + Seq::<char>::empty() =~= out@);
    out
}

/// `decode_spec` of `s[a..b]`.
fn decode(s: &Vec<char>, a: usize, b: usize) -> (r: String)
    requires
        a <= b <= s@.len(),
    ensures
        r@ == decode_spec(s@.subrange(a as int, b as int)),
{
    let mut v: Vec<char> = Vec::new();
    let mut k = a;
    while k < b
        invariant
            a <= k <= b <= s@.len(),
            v@ == s@.subrange(a as int, k as int),
        decreases b - k,
    {
        v.push(s[k]);
        k = k + 1;
        assert(v@ =~= s@.subrange(a as int, k as int));
    }
    let v1 = replace_pass(&v, "&lt;", "<");
    let v2 = replace_pass(&v1, "&gt;", ">");
    let v3 = replace_pass(&v2, "&quot;", "\"");
    let v4 = replace_pass(&v3, "&apos;", "'");
    let v5 = replace_pass(&v4, "&amp;", "&");
    crate::text::chars_to_string(v5.as_slice())
}

fn sub_string(s: &Vec<char>, a: usize, b: usize) -> (r: String)
    requires
        a <= b <= s@.len(),
    ensures
        r@ == s@.subrange(a as int, b as int),
{
    let mut r = String::new();
    push_chars(&mut r, s.as_slice(), a, b);
    assert(r@ =~= s@.subrange(a as int, b as int));
    r
}

/// The attributes from `i` on (see `attrs_spec`).
fn read_attrs(s: &Vec<char>, i0: usize) -> (r: (Vec<(String, ConfValue)>, usize))
    requires
        i0 <= s@.len() + 1,
        s@.len() + 4 < usize::MAX,
    ensures
        (dict_view(r.0@), r.1 as int) == attrs_spec(s@, i0 as int, seq![]),
{
    let ghost total = attrs_spec(s@, i0 as int, seq![]);
    let mut attrs: Vec<(String, ConfValue)> = Vec::new();
    let mut i = i0;
    assert(dict_view(attrs@) =~= Seq::<(Seq<char>, ConfModel)>::empty());
    loop
        invariant
            i <= s@.len() + 1,
            s@.len() + 4 < usize::MAX,
            attrs_spec(s@, i as int, dict_view(attrs@)) == total,
            total == attrs_spec(s@, i0 as int, seq![]),
        decreases s@.len() + 2 - i,
    {
        let i1 = if i <= s.len() { skip_ws_at(s, i) } else { i };
        proof {
            if i > s@.len() {
                assert(skip_ws(s@, i as int) == i);
            }
        }
        let c = peek_at(s, i1);
        if c == '>' || c == '/' || c == '\0' {
            return (attrs, i1);
        }
        let e = name_end_at(s, i1);
        if e <= i1 {
            return (attrs, i1);
        }
        let name = sub_string(s, i1, e);
        let i2 = skip_ws_at(s, e);
        let mut val = String::new();
        let mut i4 = i2;
        if peek_at(s, i2) == '=' {
            let i3 = skip_ws_at(s, i2 + 1);
            let q = peek_at(s, i3);
            if q == '"' || q == '\'' {
                let k = char_from_at(s, q, i3 + 1);
                val = decode(s, i3 + 1, k);
                i4 = k + 1;
            } else {
                i4 = i3;
            }
        }
        let ghost a0 = dict_view(attrs@);
        let j = find_key(&attrs, name.as_str());
        proof {
            lemma_key_index(a0, name@, 0);
        }
        let v = ConfValue::Str(val);
        if j < attrs.len() {
            attrs.set(j, (name, v));
        } else {
            attrs.push((name, v));
        }
        assert(dict_view(attrs@) =~= dict_set(a0, s@.subrange(i1 as int, e as int), ConfModel::Str(attr_value(s@, e as int).0)));
        i = i4;
    }
}

fn make_elem(name: String, attrs: Vec<(String, ConfValue)>, children: Vec<ConfValue>, text: String) -> (r: ConfValue)
    ensures
        r@ == elem_model(name@, dict_view(attrs@), list_view(children@), text@),
{
    let ghost nv = name@;
    let ghost av = dict_view(attrs@);
    let ghost lv = list_view(children@);
    let ghost tv = text@;
    let a = ConfValue::Dict(attrs);
    assert(cv(a)->Dict_0 =~= av);
    assert(cv(a) == ConfModel::Dict(av));
    let c = ConfValue::List(children);
    assert(cv(c)->List_0 =~= lv);
    assert(cv(c) == ConfModel::List(lv));
    let k0 = "नाम".to_owned();
    let k1 = "गुण".to_owned();
    let k2 = "बच्चे".to_owned();
    let k3 = "पाठ".to_owned();
    assert(k0@ == "नाम"@ && k1@ == "गुण"@ && k2@ == "बच्चे"@ && k3@ == "पाठ"@);
    let v0 = ConfValue::Str(name);
    let v3 = ConfValue::Str(text);
    assert(cv(v0) == ConfModel::Str(nv));
    assert(cv(v3) == ConfModel::Str(tv));
    let items = vec![(k0, v0), (k1, a), (k2, c), (k3, v3)];
    let r = ConfValue::Dict(items);
    proof {
        let d = cv(r)->Dict_0;
        assert(d.len() == 4);
        assert(d[0] == ("नाम"@, ConfModel::Str(nv)));
        assert(d[1] == ("गुण"@, ConfModel::Dict(av)));
        assert(d[2] == ("बच्चे"@, ConfModel::List(lv)));
        assert(d[3] == ("पाठ"@, ConfModel::Str(tv)));
        assert(d =~= elem_model(nv, av, lv, tv)->Dict_0);
    }
    r
}

proof fn lemma_junk_bounds(s: Seq<char>, i: int)
    requires
        0 <= i <= s.len(),
    ensures
        i <= skip_junk(s, i) <= s.len(),
    decreases s.len() + 1 - i,
{
    lemma_scans(s, i, '>');
    let j = skip_ws(s, i);
    if j < s.len() {
        if occurs_at(s, j, "<!--"@) {
            reveal_strlit("-->");
            lemma_first_occ_from(s, "-->"@, j);
            let e = first_occ_from(s, "-->"@, j);
            if e < s.len() {
                lemma_junk_bounds(s, e + 3);
            }
        } else if occurs_at(s, j, "<?"@) {
            reveal_strlit("?>");
            lemma_first_occ_from(s, "?>"@, j);
            let e = first_occ_from(s, "?>"@, j);
            if e < s.len() {
                lemma_junk_bounds(s, e + 2);
            }
        } else if occurs_at(s, j, "<!"@) {
            lemma_scans(s, j, '>');
            let e = char_from(s, '>', j);
            if e < s.len() {
                lemma_junk_bounds(s, e + 1);
            }
        }
    }
}

/// The element starting at `i` (see `elem_spec`) and the position after it.
fn read_elem(s: &Vec<char>, i: usize) -> (r: Result<(ConfValue, usize), String>)
    requires
        i <= s@.len(),
        s@.len() + 4 < usize::MAX,
    ensures
        match elem_spec(s@, i as int) {
            Err(e) => r matches Err(x) && x@ == e,
            Ok((m, p)) => r matches Ok((v, q)) && v@ == m && q == p,
        },
        r matches Ok((_, q)) ==> i < q <= s@.len() + 1,
    decreases s@.len() + 2 - i,
{
    proof {
        lemma_junk_bounds(s@, i as int);
    }
    let i1 = skip_junk_at(s, i);
    if peek_at(s, i1) != '<' {
        return Err("एक्सएमएल: '<' अपेक्षित".to_owned());
    }
    let i2 = i1 + 1;
    let e = name_end_at(s, i2);
    if e <= i2 {
        return Err("एक्सएमएल: टैग नाम खाली".to_owned());
    }
    let name = sub_string(s, i2, e);
    let (attrs, i3) = read_attrs(s, e);
    proof {
        lemma_attrs_bounds(s@, e as int, seq![]);
    }
    let i4 = if i3 <= s.len() { skip_ws_at(s, i3) } else { i3 };
    proof {
        if i3 > s@.len() {
            assert(skip_ws(s@, i3 as int) == i3);
        }
    }
    if peek_at(s, i4) == '/' {
        let i5 = i4 + 1;
        let end = if peek_at(s, i5) == '>' { i5 + 1 } else { i5 };
        let children: Vec<ConfValue> = Vec::new();
        assert(list_view(children@) =~= Seq::<ConfModel>::empty());
        return Ok((make_elem(name, attrs, children, String::new()), end));
    }
    let mut k = if peek_at(s, i4) == '>' { i4 + 1 } else { i4 };
    let ghost nm = name@;
    let ghost av = dict_view(attrs@);
    let ghost total = content_spec(s@, k as int, nm, av, seq![], seq![]);
    let mut children: Vec<ConfValue> = Vec::new();
    let mut text = String::new();
    let close_tag = str_chars("</");
    let open_c = str_chars("<!--");
    let close_c = str_chars("-->");
    assert(list_view(children@) =~= Seq::<ConfModel>::empty());
    loop
        invariant
            i < k <= s@.len() + 2,
            s@.len() + 4 < usize::MAX,
            nm == name@,
            av == dict_view(attrs@),
            close_tag@ == "</"@,
            open_c@ == "<!--"@,
            close_c@ == "-->"@,
            content_spec(s@, k as int, nm, av, list_view(children@), text@) == total,
            total == elem_spec(s@, i as int),
        decreases s@.len() + 2 - k,
    {
        if k >= s.len() {
            let mut m = "एक्सएमएल: <".to_owned();
            push_str(&mut m, name.as_str());
            push_str(&mut m, "> बंद नहीं हुआ");
            return Err(m);
        }
        proof {
            reveal_strlit("</");
            reveal_strlit("-->");
        }
        if occurs_chars(s, k, &close_tag) {
            let j = name_end_at(s, k + 2);
            let q = skip_ws_at(s, j);
            let end = if peek_at(s, q) == '>' { q + 1 } else { q };
            return Ok((make_elem(name, attrs, children, text), end));
        }
        if occurs_chars(s, k, &open_c) {
            let e2 = occ_from(s, &close_c, k);
            if e2 < s.len() {
                proof {
                    reveal_strlit("-->");
                    lemma_first_occ_from(s@, "-->"@, k as int);
                }
                k = e2 + 3;
                assert(content_spec(s@, k as int, nm, av, list_view(children@), text@) == total);
                continue;
            }
        }
        if s[k] == '<' {
            let ghost before = list_view(children@);
            match read_elem(s, k) {
                Err(e) => {
                    return Err(e);
                },
                Ok((child, k2)) => {
                    let ghost cm = child@;
                    children.push(child);
                    assert(list_view(children@) =~= before.push(cm));
                    k = k2;
                    assert(content_spec(s@, k as int, nm, av, list_view(children@), text@) == total);
                },
            }
        } else {
            let j = char_from_at(s, '<', k);
            proof {
                lemma_scans(s@, k + 1, '<');
                assert(char_from(s@, '<', k as int) == char_from(s@, '<', k + 1));
            }
            let (ta, tb) = trim_range(s.as_slice(), k, j);
            let t = decode(s, ta, tb);
            let ghost old_text = text@;
            if t.unicode_len() > 0 {
                if text.unicode_len() > 0 {
                    crate::text::push_char(&mut text, ' ');
                }
                push_str(&mut text, t.as_str());
            }
            assert(text@ =~= join_text(old_text, t@));
            k = j;
        }
    }
}

proof fn lemma_attrs_bounds(s: Seq<char>, i: int, attrs: Seq<(Seq<char>, ConfModel)>)
    requires
        0 <= i <= s.len() + 1,
    ensures
        i <= attrs_spec(s, i, attrs).1 <= s.len() + 1,
    decreases s.len() + 2 - i,
{
    if i <= s.len() {
        lemma_scans(s, i, '>');
    }
    let i1 = skip_ws(s, i);
    let c = peek(s, i1);
    if !(c == '>' || c == '/' || c == '\0') {
        if i1 <= s.len() {
            lemma_scans(s, i1, '>');
        }
        let e = name_end(s, i1);
        if e > i1 && e <= s.len() {
            let (v, i4) = attr_value(s, e);
            if i4 > i && i4 <= s.len() + 1 {
                lemma_attrs_bounds(s, i4, dict_set(attrs, s.subrange(i1, e), ConfModel::Str(v)));
            }
        }
    }
}

/// xml_पढ़ो: the document's root element (see `xml_spec`).
pub fn xml_read(text: &str) -> (r: Result<ConfValue, String>)
    requires
        text@.len() + 4 < usize::MAX,
    ensures
        match xml_spec(text@) {
            Err(e) => r matches Err(x) && x@ == e,
            Ok(m) => r matches Ok(v) && v@ == m,
        },
{
    let s = str_chars(text);
    match read_elem(&s, 0) {
        Err(e) => Err(e),
        Ok((v, _)) => Ok(v),
    }
}

} // verus!
