//! Phonetic (character-level) Roman → Devanagari transliteration for `.vani`
//! sources. The keyword pass of `roman` runs first; then every remaining ASCII
//! word outside strings and `#` comments is spelled out letter by letter:
//! consonants take a halant (्) before a following consonant, vowels after a
//! consonant become matras, and longer letter groups win over shorter ones
//! (the first pattern in table order that fits is taken).

use vstd::prelude::*;
use crate::text::{occurs_at, is_ascii_alpha, is_ascii_alpha_spec, is_ascii_alnum, is_ascii_alnum_spec,
    to_ascii_lower, lower_seq, str_chars, chars_to_string, push_char, push_str};
use crate::roman::{roman_to_devanagari, roman_spec};

verus! {

/// A letter group's Devanagari value.
#[derive(Clone, Copy)]
pub enum Ph {
    /// A consonant (possibly a conjunct with an embedded halant).
    Con(&'static str),
    /// A vowel: its standalone letter and its matra (empty for the inherent `a`).
    Vow(&'static str, &'static str),
}

/// The mathematical value of a `Ph`.
pub enum PhModel {
    Con(Seq<char>),
    Vow(Seq<char>, Seq<char>),
}

impl View for Ph {
    type V = PhModel;

    open spec fn view(&self) -> PhModel {
        match self {
            Ph::Con(d) => PhModel::Con(d@),
            Ph::Vow(s, m) => PhModel::Vow(s@, m@),
        }
    }
}

/// Number of letter groups in the table.
pub const PH_COUNT: usize = 58;

/// The letter-group table, longest groups first: entry `k` is (Roman letters, value).
pub open spec fn ph_spec(k: usize) -> (Seq<char>, PhModel) {
    match k {
        0 => ("ksha"@, PhModel::Con("क्ष"@)),
        1 => ("ksh"@, PhModel::Con("क्ष"@)),
        2 => ("gny"@, PhModel::Con("ज्ञ"@)),
        3 => ("ssh"@, PhModel::Con("ष"@)),
        4 => ("chh"@, PhModel::Con("छ"@)),
        5 => ("tth"@, PhModel::Con("ठ"@)),
        6 => ("ddh"@, PhModel::Con("ढ"@)),
        7 => ("aa"@, PhModel::Vow("आ"@, "ा"@)),
        8 => ("ai"@, PhModel::Vow("ऐ"@, "ै"@)),
        9 => ("au"@, PhModel::Vow("औ"@, "ौ"@)),
        10 => ("ou"@, PhModel::Vow("औ"@, "ौ"@)),
        11 => ("ow"@, PhModel::Vow("औ"@, "ौ"@)),
        12 => ("ee"@, PhModel::Vow("ई"@, "ी"@)),
        13 => ("ii"@, PhModel::Vow("ई"@, "ी"@)),
        14 => ("oo"@, PhModel::Vow("ऊ"@, "ू"@)),
        15 => ("uu"@, PhModel::Vow("ऊ"@, "ू"@)),
        16 => ("ri"@, PhModel::Vow("ऋ"@, "ृ"@)),
        17 => ("kh"@, PhModel::Con("ख"@)),
        18 => ("gh"@, PhModel::Con("घ"@)),
        19 => ("ng"@, PhModel::Con("ङ"@)),
        20 => ("ch"@, PhModel::Con("च"@)),
        21 => ("jh"@, PhModel::Con("झ"@)),
        22 => ("ny"@, PhModel::Con("ञ"@)),
        23 => ("gy"@, PhModel::Con("ज्ञ"@)),
        24 => ("tt"@, PhModel::Con("ट"@)),
        25 => ("dd"@, PhModel::Con("ड"@)),
        26 => ("nn"@, PhModel::Con("ण"@)),
        27 => ("th"@, PhModel::Con("थ"@)),
        28 => ("dh"@, PhModel::Con("ध"@)),
        29 => ("sh"@, PhModel::Con("श"@)),
        30 => ("ph"@, PhModel::Con("फ"@)),
        31 => ("bh"@, PhModel::Con("भ"@)),
        32 => ("a"@, PhModel::Vow("अ"@, ""@)),
        33 => ("i"@, PhModel::Vow("इ"@, "ि"@)),
        34 => ("u"@, PhModel::Vow("उ"@, "ु"@)),
        35 => ("e"@, PhModel::Vow("ए"@, "े"@)),
        36 => ("o"@, PhModel::Vow("ओ"@, "ो"@)),
        37 => ("k"@, PhModel::Con("क"@)),
        38 => ("g"@, PhModel::Con("ग"@)),
        39 => ("c"@, PhModel::Con("च"@)),
        40 => ("j"@, PhModel::Con("ज"@)),
        41 => ("t"@, PhModel::Con("त"@)),
        42 => ("d"@, PhModel::Con("द"@)),
        43 => ("n"@, PhModel::Con("न"@)),
        44 => ("p"@, PhModel::Con("प"@)),
        45 => ("b"@, PhModel::Con("ब"@)),
        46 => ("m"@, PhModel::Con("म"@)),
        47 => ("y"@, PhModel::Con("य"@)),
        48 => ("r"@, PhModel::Con("र"@)),
        49 => ("l"@, PhModel::Con("ल"@)),
        50 => ("v"@, PhModel::Con("व"@)),
        51 => ("w"@, PhModel::Con("व"@)),
        52 => ("s"@, PhModel::Con("स"@)),
        53 => ("h"@, PhModel::Con("ह"@)),
        54 => ("f"@, PhModel::Con("फ"@)),
        55 => ("x"@, PhModel::Con("क्ष"@)),
        56 => ("q"@, PhModel::Con("क"@)),
        57 => ("z"@, PhModel::Con("ज"@)),
        _ => (""@, PhModel::Con(""@)),
    }
}

/// Entry `k` of the letter-group table.
fn ph_entry(k: usize) -> (r: (&'static str, Ph))
    requires
        k < PH_COUNT,
    ensures
        r.0@ == ph_spec(k).0,
        r.1@ == ph_spec(k).1,
{
    match k {
        0 => ("ksha", Ph::Con("क्ष")),
        1 => ("ksh", Ph::Con("क्ष")),
        2 => ("gny", Ph::Con("ज्ञ")),
        3 => ("ssh", Ph::Con("ष")),
        4 => ("chh", Ph::Con("छ")),
        5 => ("tth", Ph::Con("ठ")),
        6 => ("ddh", Ph::Con("ढ")),
        7 => ("aa", Ph::Vow("आ", "ा")),
        8 => ("ai", Ph::Vow("ऐ", "ै")),
        9 => ("au", Ph::Vow("औ", "ौ")),
        10 => ("ou", Ph::Vow("औ", "ौ")),
        11 => ("ow", Ph::Vow("औ", "ौ")),
        12 => ("ee", Ph::Vow("ई", "ी")),
        13 => ("ii", Ph::Vow("ई", "ी")),
        14 => ("oo", Ph::Vow("ऊ", "ू")),
        15 => ("uu", Ph::Vow("ऊ", "ू")),
        16 => ("ri", Ph::Vow("ऋ", "ृ")),
        17 => ("kh", Ph::Con("ख")),
        18 => ("gh", Ph::Con("घ")),
        19 => ("ng", Ph::Con("ङ")),
        20 => ("ch", Ph::Con("च")),
        21 => ("jh", Ph::Con("झ")),
        22 => ("ny", Ph::Con("ञ")),
        23 => ("gy", Ph::Con("ज्ञ")),
        24 => ("tt", Ph::Con("ट")),
        25 => ("dd", Ph::Con("ड")),
        26 => ("nn", Ph::Con("ण")),
        27 => ("th", Ph::Con("थ")),
        28 => ("dh", Ph::Con("ध")),
        29 => ("sh", Ph::Con("श")),
        30 => ("ph", Ph::Con("फ")),
        31 => ("bh", Ph::Con("भ")),
        32 => ("a", Ph::Vow("अ", "")),
        33 => ("i", Ph::Vow("इ", "ि")),
        34 => ("u", Ph::Vow("उ", "ु")),
        35 => ("e", Ph::Vow("ए", "े")),
        36 => ("o", Ph::Vow("ओ", "ो")),
        37 => ("k", Ph::Con("क")),
        38 => ("g", Ph::Con("ग")),
        39 => ("c", Ph::Con("च")),
        40 => ("j", Ph::Con("ज")),
        41 => ("t", Ph::Con("त")),
        42 => ("d", Ph::Con("द")),
        43 => ("n", Ph::Con("न")),
        44 => ("p", Ph::Con("प")),
        45 => ("b", Ph::Con("ब")),
        46 => ("m", Ph::Con("म")),
        47 => ("y", Ph::Con("य")),
        48 => ("r", Ph::Con("र")),
        49 => ("l", Ph::Con("ल")),
        50 => ("v", Ph::Con("व")),
        51 => ("w", Ph::Con("व")),
        52 => ("s", Ph::Con("स")),
        53 => ("h", Ph::Con("ह")),
        54 => ("f", Ph::Con("फ")),
        55 => ("x", Ph::Con("क्ष")),
        56 => ("q", Ph::Con("क")),
        57 => ("z", Ph::Con("ज")),
        _ => ("", Ph::Con("")),
    }
}

/// Every letter group in the table is non-empty.
pub proof fn lemma_ph_pattern_nonempty(k: usize)
    requires
        k < PH_COUNT,
    ensures
        ph_spec(k).0.len() > 0,
{
    match k {
        0 => { reveal_strlit("ksha"); }
        1 => { reveal_strlit("ksh"); }
        2 => { reveal_strlit("gny"); }
        3 => { reveal_strlit("ssh"); }
        4 => { reveal_strlit("chh"); }
        5 => { reveal_strlit("tth"); }
        6 => { reveal_strlit("ddh"); }
        7 => { reveal_strlit("aa"); }
        8 => { reveal_strlit("ai"); }
        9 => { reveal_strlit("au"); }
        10 => { reveal_strlit("ou"); }
        11 => { reveal_strlit("ow"); }
        12 => { reveal_strlit("ee"); }
        13 => { reveal_strlit("ii"); }
        14 => { reveal_strlit("oo"); }
        15 => { reveal_strlit("uu"); }
        16 => { reveal_strlit("ri"); }
        17 => { reveal_strlit("kh"); }
        18 => { reveal_strlit("gh"); }
        19 => { reveal_strlit("ng"); }
        20 => { reveal_strlit("ch"); }
        21 => { reveal_strlit("jh"); }
        22 => { reveal_strlit("ny"); }
        23 => { reveal_strlit("gy"); }
        24 => { reveal_strlit("tt"); }
        25 => { reveal_strlit("dd"); }
        26 => { reveal_strlit("nn"); }
        27 => { reveal_strlit("th"); }
        28 => { reveal_strlit("dh"); }
        29 => { reveal_strlit("sh"); }
        30 => { reveal_strlit("ph"); }
        31 => { reveal_strlit("bh"); }
        32 => { reveal_strlit("a"); }
        33 => { reveal_strlit("i"); }
        34 => { reveal_strlit("u"); }
        35 => { reveal_strlit("e"); }
        36 => { reveal_strlit("o"); }
        37 => { reveal_strlit("k"); }
        38 => { reveal_strlit("g"); }
        39 => { reveal_strlit("c"); }
        40 => { reveal_strlit("j"); }
        41 => { reveal_strlit("t"); }
        42 => { reveal_strlit("d"); }
        43 => { reveal_strlit("n"); }
        44 => { reveal_strlit("p"); }
        45 => { reveal_strlit("b"); }
        46 => { reveal_strlit("m"); }
        47 => { reveal_strlit("y"); }
        48 => { reveal_strlit("r"); }
        49 => { reveal_strlit("l"); }
        50 => { reveal_strlit("v"); }
        51 => { reveal_strlit("w"); }
        52 => { reveal_strlit("s"); }
        53 => { reveal_strlit("h"); }
        54 => { reveal_strlit("f"); }
        55 => { reveal_strlit("x"); }
        56 => { reveal_strlit("q"); }
        57 => { reveal_strlit("z"); }
        _ => {}
    }
}

/// The first letter group at index `k` or later (in table order) that occurs at `i`.
pub open spec fn ph_first_from(s: Seq<char>, i: int, k: usize) -> Option<usize>
    decreases PH_COUNT - k,
{
    if k >= PH_COUNT {
        None
    } else if occurs_at(s, i, ph_spec(k).0) {
        Some(k)
    } else {
        ph_first_from(s, i, (k + 1) as usize)
    }
}

pub proof fn lemma_ph_first_from(s: Seq<char>, i: int, k: usize)
    ensures
        match ph_first_from(s, i, k) {
            Some(r) => k <= r < PH_COUNT && occurs_at(s, i, ph_spec(r).0),
            None => true,
        },
    decreases PH_COUNT - k,
{
    if k < PH_COUNT && !occurs_at(s, i, ph_spec(k).0) {
        lemma_ph_first_from(s, i, (k + 1) as usize);
    }
}

/// Spelling of the (lowercase) letters `s` from position `i`; `after_con` tells
/// whether the previous output was a consonant.
pub open spec fn seg_from(s: Seq<char>, i: int, after_con: bool) -> Seq<char>
    decreases s.len() - i,
{
    if i < 0 || i >= s.len() {
        Seq::empty()
    } else {
        match ph_first_from(s, i, 0) {
            Some(k) => {
                proof {
                    lemma_ph_first_from(s, i, 0);
                    lemma_ph_pattern_nonempty(k);
                }
                let next = i + ph_spec(k).0.len();
                match ph_spec(k).1 {
                    PhModel::Con(dev) => (if after_con {
                        seq!['\u{94d}']
                    } else {
                        Seq::empty()
                    }) + dev + seg_from(s, next, true),
                    PhModel::Vow(standalone, matra) => (if after_con {
                        matra
                    } else {
                        standalone
                    }) + seg_from(s, next, false),
                }
            },
            None => seq![s[i]] + seg_from(s, i + 1, false),
        }
    }
}

/// Spelling of one run of letters (ASCII case is ignored).
pub open spec fn convert_segment_spec(w: Seq<char>) -> Seq<char> {
    seg_from(lower_seq(w), 0, false)
}

/// Spelling of a word from position `i`, `buf` holding the pending run of letters:
/// each maximal run of ASCII letters is spelled out, every other character is kept.
pub open spec fn word_from(w: Seq<char>, i: int, buf: Seq<char>) -> Seq<char>
    decreases w.len() - i,
{
    if i < 0 || i >= w.len() {
        convert_segment_spec(buf)
    } else if is_ascii_alpha_spec(w[i]) {
        word_from(w, i + 1, buf.push(w[i]))
    } else {
        convert_segment_spec(buf) + seq![w[i]] + word_from(w, i + 1, Seq::empty())
    }
}

pub open spec fn convert_word_spec(w: Seq<char>) -> Seq<char> {
    word_from(w, 0, Seq::empty())
}

/// End of the comment that starts at `i`: the next line break, or the end.
pub open spec fn line_end(s: Seq<char>, i: int) -> int
    decreases s.len() - i,
{
    if i < 0 || i >= s.len() || s[i] == '\n' {
        i
    } else {
        line_end(s, i + 1)
    }
}

/// Characters that continue an identifier: ASCII letters, digits and `_`.
pub open spec fn is_ident_spec(c: char) -> bool {
    is_ascii_alnum_spec(c) || c == '_'
}

/// End of the identifier that continues at `i`.
pub open spec fn ident_end(s: Seq<char>, i: int) -> int
    decreases s.len() - i,
{
    if i < 0 || i >= s.len() || !is_ident_spec(s[i]) {
        i
    } else {
        ident_end(s, i + 1)
    }
}

pub proof fn lemma_line_end(s: Seq<char>, i: int)
    requires
        0 <= i <= s.len(),
    ensures
        i <= line_end(s, i) <= s.len(),
        forall|j: int| i <= j < line_end(s, i) ==> s[j] != '\n',
        line_end(s, i) < s.len() ==> s[line_end(s, i)] == '\n',
    decreases s.len() - i,
{
    if i < s.len() && s[i] != '\n' {
        lemma_line_end(s, i + 1);
    }
}

pub proof fn lemma_ident_end(s: Seq<char>, i: int)
    requires
        0 <= i <= s.len(),
    ensures
        i <= ident_end(s, i) <= s.len(),
        forall|j: int| i <= j < ident_end(s, i) ==> is_ident_spec(s[j]),
        ident_end(s, i) < s.len() ==> !is_ident_spec(s[ident_end(s, i)]),
    decreases s.len() - i,
{
    if i < s.len() && is_ident_spec(s[i]) {
        lemma_ident_end(s, i + 1);
    }
}

/// The second pass from position `i`: ASCII words outside strings and comments
/// are spelled out; everything else is copied.
pub open spec fn pass2_from(s: Seq<char>, i: int, in_str: bool) -> Seq<char>
    decreases s.len() - i,
{
    if i < 0 || i >= s.len() {
        Seq::empty()
    } else {
        let c = s[i];
        if c == '"' {
            let next = !in_str || (i > 0 && s[i - 1] == '\\');
            seq![c] + pass2_from(s, i + 1, next)
        } else if in_str {
            seq![c] + pass2_from(s, i + 1, true)
        } else if c == '#' {
            let e = line_end(s, i);
            proof {
                lemma_line_end(s, i);
                lemma_line_end(s, i + 1);
            }
            s.subrange(i, e) + pass2_from(s, e, false)
        } else if is_ascii_alpha_spec(c) {
            let e = ident_end(s, i + 1);
            proof {
                lemma_ident_end(s, i + 1);
            }
            convert_word_spec(s.subrange(i, e)) + pass2_from(s, e, false)
        } else {
            seq![c] + pass2_from(s, i + 1, false)
        }
    }
}

pub open spec fn second_pass_spec(s: Seq<char>) -> Seq<char> {
    pass2_from(s, 0, false)
}

/// The `.vani` translation: the keyword pass, then the letter-by-letter pass.
pub open spec fn vani_spec(src: Seq<char>) -> Seq<char> {
    second_pass_spec(roman_spec(src))
}

/// The first letter group that occurs at `i`.
fn ph_find(s: &Vec<char>, i: usize) -> (r: Option<usize>)
    requires
        i < s@.len(),
    ensures
        r == ph_first_from(s@, i as int, 0),
{
    let mut k: usize = 0;
    while k < PH_COUNT
        invariant
            k <= PH_COUNT,
            i < s@.len(),
            ph_first_from(s@, i as int, 0) == ph_first_from(s@, i as int, k),
        decreases PH_COUNT - k,
    {
        let (pat, _ph) = ph_entry(k);
        if occurs(s, i, pat) {
            return Some(k);
        }
        k = k + 1;
    }
    None
}

/// Whether `p` occurs in `s` at `i`.
fn occurs(s: &Vec<char>, i: usize, p: &str) -> (b: bool)
    requires
        i <= s@.len(),
    ensures
        b == occurs_at(s@, i as int, p@),
{
    let m = p.unicode_len();
    let len = s.len();
    if m > len - i {
        return false;
    }
    let mut j: usize = 0;
    while j < m
        invariant
            j <= m,
            m == p@.len(),
            len == s@.len(),
            i + m <= len,
            forall|t: int| 0 <= t < j ==> s@[i + t] == #[trigger] p@[t],
        decreases m - j,
    {
        if s[i + j] != p.get_char(j) {
            return false;
        }
        j = j + 1;
    }
    true
}

/// The ASCII-lowercased characters.
fn lower_chars(w: &Vec<char>) -> (r: Vec<char>)
    ensures
        r@ == lower_seq(w@),
{
    let mut r: Vec<char> = Vec::new();
    let mut i: usize = 0;
    while i < w.len()
        invariant
            i <= w@.len(),
            r@ == lower_seq(w@.subrange(0, i as int)),
        decreases w.len() - i,
    {
        r.push(to_ascii_lower(w[i]));
        i = i + 1;
        assert(r@ =~= lower_seq(w@.subrange(0, i as int)));
    }
    assert(w@.subrange(0, i as int) =~= w@);
    r
}

/// Appends the spelling of one run of letters to `out`.
fn convert_segment(word: &Vec<char>, out: &mut String)
    ensures
        final(out)@ == old(out)@ + convert_segment_spec(word@),
{
    let ghost start = out@;
    let lower = lower_chars(word);
    let n = lower.len();
    let mut pos: usize = 0;
    let mut after_con = false;
    while pos < n
        invariant
            pos <= n,
            n == lower@.len(),
            lower@ == lower_seq(word@),
            start == old(out)@,
            out@ + seg_from(lower@, pos as int, after_con) == start + convert_segment_spec(word@),
        decreases n - pos,
    {
        match ph_find(&lower, pos) {
            Some(k) => {
                proof {
                    lemma_ph_first_from(lower@, pos as int, 0);
                    lemma_ph_pattern_nonempty(k);
                }
                let (pat, ph) = ph_entry(k);
                let ghost before = out@;
                let ghost ac = after_con;
                match ph {
                    Ph::Con(dev) => {
                        if after_con {
                            push_char(out, '\u{94d}');
                        }
                        push_str(out, dev);
                        after_con = true;
                        assert(out@ =~= before + (if ac {
                            seq!['\u{94d}']
                        } else {
                            Seq::empty()
                        }) + dev@);
                    },
                    Ph::Vow(standalone, matra) => {
                        if after_con {
                            push_str(out, matra);
                        } else {
                            push_str(out, standalone);
                        }
                        after_con = false;
                    },
                }
                pos = pos + pat.unicode_len();
                assert(out@ + seg_from(lower@, pos as int, after_con) =~= start
                    + convert_segment_spec(word@));
            },
            None => {
                push_char(out, lower[pos]);
                pos = pos + 1;
                after_con = false;
                assert(out@ + seg_from(lower@, pos as int, after_con) =~= start
                    + convert_segment_spec(word@));
            },
        }
    }
    assert(out@ =~= start + convert_segment_spec(word@));
}

/// Spells out each run of ASCII letters in `word`; all other characters
/// (digits, `_`, non-ASCII) are kept as they are.
pub fn convert_word(word: &str) -> (out: String)
    ensures
        out@ == convert_word_spec(word@),
{
    let w = str_chars(word);
    let mut out = String::new();
    let mut buf: Vec<char> = Vec::new();
    let mut i: usize = 0;
    while i < w.len()
        invariant
            i <= w@.len(),
            w@ == word@,
            out@ + word_from(w@, i as int, buf@) == convert_word_spec(word@),
        decreases w.len() - i,
    {
        let c = w[i];
        if is_ascii_alpha(c) {
            buf.push(c);
        } else {
            convert_segment(&buf, &mut out);
            buf = Vec::new();
            push_char(&mut out, c);
        }
        i = i + 1;
        assert(out@ + word_from(w@, i as int, buf@) =~= convert_word_spec(word@));
    }
    convert_segment(&buf, &mut out);
    out
}

/// The letter-by-letter pass over a whole source.
fn second_pass(source: &Vec<char>) -> (out: String)
    ensures
        out@ == second_pass_spec(source@),
{
    let chars = source;
    let n = chars.len();
    let mut out = String::new();
    let mut i: usize = 0;
    let mut in_str = false;
    while i < n
        invariant
            i <= n,
            n == chars@.len(),
            out@ + pass2_from(chars@, i as int, in_str) == second_pass_spec(chars@),
        decreases n - i,
    {
        let c = chars[i];
        let ghost before = out@;
        if c == '"' {
            let next = !in_str || (i > 0 && chars[i - 1] == '\\');
            push_char(&mut out, c);
            in_str = next;
            i = i + 1;
        } else if in_str {
            push_char(&mut out, c);
            i = i + 1;
        } else if c == '#' {
            proof {
                lemma_line_end(chars@, i as int);
            }
            let start = i;
            while i < n && chars[i] != '\n'
                invariant
                    start <= i <= n,
                    n == chars@.len(),
                    line_end(chars@, start as int) == line_end(chars@, i as int),
                    out@ == before + chars@.subrange(start as int, i as int),
                decreases n - i,
            {
                push_char(&mut out, chars[i]);
                i = i + 1;
                assert(out@ =~= before + chars@.subrange(start as int, i as int));
            }
            assert(pass2_from(chars@, start as int, false) == chars@.subrange(start as int, i as int)
                + pass2_from(chars@, i as int, false));
        } else if is_ascii_alpha(c) {
            proof {
                lemma_ident_end(chars@, i as int + 1);
            }
            let start = i;
            i = i + 1;
            while i < n && (is_ascii_alnum(chars[i]) || chars[i] == '_')
                invariant
                    start < i <= n,
                    n == chars@.len(),
                    ident_end(chars@, start as int + 1) == ident_end(chars@, i as int),
                decreases n - i,
            {
                i = i + 1;
            }
            let mut word: Vec<char> = Vec::new();
            let mut j = start;
            while j < i
                invariant
                    start <= j <= i <= n,
                    n == chars@.len(),
                    word@ == chars@.subrange(start as int, j as int),
                decreases i - j,
            {
                word.push(chars[j]);
                j = j + 1;
                assert(word@ =~= chars@.subrange(start as int, j as int));
            }
            let word_str = chars_to_string(word.as_slice());
            let conv = convert_word(word_str.as_str());
            push_str(&mut out, conv.as_str());
        } else {
            push_char(&mut out, c);
            i = i + 1;
        }
        assert(out@ + pass2_from(chars@, i as int, in_str) =~= second_pass_spec(chars@));
    }
    assert(out@ =~= second_pass_spec(chars@));
    out
}

/// Converts a `.vani` phonetic source to Devanagari source: first the keyword
/// pass, then every remaining ASCII identifier spelled out letter by letter.
pub fn vani_to_devanagari(source: &str) -> (out: String)
    ensures
        out@ == vani_spec(source@),
{
    let after_keywords = roman_to_devanagari(source);
    let chars = str_chars(after_keywords.as_str());
    second_pass(&chars)
}

} // verus!
