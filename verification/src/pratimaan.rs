//! The operations of भारत.प्रतिमान on plain strings: first match, its
//! position, all matches, whole-string match, groups, replacement and
//! splitting. Each is stated over the matcher's model in `regex_engine`.

use vstd::prelude::*;
use crate::regex_engine::{
    Regex, RegexModel, regex_spec, regex_wf, find_from_spec, exec_at_spec, vm_err_msg,
    law_match_within_text, STEP_BUDGET, n_slots, anchored_spec,
};
use crate::text::{str_chars, push_chars, push_char};

verus! {

/// The step after a match `a..b`: its end, or one further for an empty match.
pub open spec fn next_from(a: int, b: int) -> int {
    if b > a { b } else { b + 1 }
}

/// All matches, one after another from `from`, as (start, end) pairs: each
/// search starts where the previous match ended (one further after an empty
/// match) and the run stops past the end of the text. `Err` when the
/// matcher runs out of steps.
pub open spec fn all_matches_spec(m: RegexModel, t: Seq<char>, from: int, steps: int) -> (Result<Seq<(int, int)>, ()>, int)
    decreases t.len() + 1 - from,
{
    if from < 0 || from > t.len() {
        (Ok(seq![]), steps)
    } else {
        let (r, st) = find_from_spec(m, t, from, steps);
        match r {
            Err(()) => (Err(()), st),
            Ok(None) => (Ok(seq![]), st),
            Ok(Some((a, b, _sv))) => {
                let next = next_from(a, b);
                if next > t.len() || next <= from {
                    (Ok(seq![(a, b)]), st)
                } else {
                    let (rest, st2) = all_matches_spec(m, t, next, st);
                    match rest {
                        Err(()) => (Err(()), st2),
                        Ok(ms) => (Ok(seq![(a, b)] + ms), st2),
                    }
                }
            },
        }
    }
}

/// The text of a recorded group: empty when the group took no part.
pub open spec fn group_text(t: Seq<char>, sv: Seq<Option<usize>>, g: int) -> Seq<char> {
    match (sv[2 * g], sv[2 * g + 1]) {
        (Some(a), Some(b)) => if a <= b && b <= t.len() { t.subrange(a as int, b as int) } else { seq![] },
        _ => seq![],
    }
}

/// The replacement text `r` from position `i` on, with `$$` standing for `$`
/// and `$0`..`$9` for the text of that group, where the pattern has it.
pub open spec fn expand_spec(r: Seq<char>, t: Seq<char>, sv: Seq<Option<usize>>, ng: int, i: int) -> Seq<char>
    decreases r.len() - i,
{
    if i < 0 || i >= r.len() {
        seq![]
    } else if r[i] == '$' && i + 1 < r.len() && r[i + 1] == '$' {
        seq!['$'] + expand_spec(r, t, sv, ng, i + 2)
    } else if r[i] == '$' && i + 1 < r.len() && '0' <= r[i + 1] && r[i + 1] <= '9' && (r[i + 1] as int) - ('0' as int) <= ng {
        group_text(t, sv, (r[i + 1] as int) - ('0' as int)) + expand_spec(r, t, sv, ng, i + 2)
    } else {
        seq![r[i]] + expand_spec(r, t, sv, ng, i + 1)
    }
}

/// Replacing every match from `from` on: the text before each match, the
/// expanded replacement, after an empty match the character it stands on,
/// and the rest of the text once no match is left.
pub open spec fn replace_spec(m: RegexModel, t: Seq<char>, r: Seq<char>, from: int, steps: int) -> (Result<Seq<char>, ()>, int)
    decreases t.len() + 1 - from,
{
    if from < 0 || from > t.len() {
        (Ok(seq![]), steps)
    } else {
        let (res, st) = find_from_spec(m, t, from, steps);
        match res {
            Err(()) => (Err(()), st),
            Ok(None) => (Ok(t.subrange(from, t.len() as int)), st),
            Ok(Some((a, b, sv))) => {
                let piece = t.subrange(from, a) + expand_spec(r, t, sv, m.n_groups as int, 0) + if b <= a
                    && b < t.len() {
                    seq![t[b]]
                } else {
                    seq![]
                };
                let next = next_from(a, b);
                if next > t.len() || next <= from {
                    (Ok(piece), st)
                } else {
                    let (rest, st2) = replace_spec(m, t, r, next, st);
                    match rest {
                        Err(()) => (Err(()), st2),
                        Ok(x) => (Ok(piece + x), st2),
                    }
                }
            },
        }
    }
}

/// Splitting at every non-empty match: the pieces between matches, the
/// current piece starting at `from` and the search going on at `search`.
pub open spec fn split_spec(m: RegexModel, t: Seq<char>, from: int, search: int, steps: int) -> (Result<Seq<Seq<char>>, ()>, int)
    decreases t.len() + 1 - search,
{
    if search < 0 || search > t.len() || from < 0 || from > search {
        (Ok(seq![]), steps)
    } else {
        let (res, st) = find_from_spec(m, t, search, steps);
        match res {
            Err(()) => (Err(()), st),
            Ok(None) => (Ok(seq![t.subrange(from, t.len() as int)]), st),
            Ok(Some((a, b, _sv))) => if a < search || b < a || b > t.len() {
                (Ok(seq![]), st)
            } else if b == a {
                if a + 1 > t.len() {
                    (Ok(seq![t.subrange(from, t.len() as int)]), st)
                } else {
                    split_spec(m, t, from, a + 1, st)
                }
            } else {
                let (rest, st2) = split_spec(m, t, b, b, st);
                match rest {
                    Err(()) => (Err(()), st2),
                    Ok(x) => (Ok(seq![t.subrange(from, a)] + x), st2),
                }
            },
        }
    }
}

/// The texts of a list of (start, end) pairs.
pub open spec fn pair_texts(t: Seq<char>, ms: Seq<(int, int)>) -> Seq<Seq<char>> {
    ms.map_values(|p: (int, int)| t.subrange(p.0, p.1))
}

/// The views of a list of strings.
pub open spec fn strings_view(v: Seq<String>) -> Seq<Seq<char>> {
    v.map_values(|s: String| s@)
}

/// Compiling the pattern (its error when it does not compile).
fn compile(pattern: &str) -> (r: Result<Regex, String>)
    requires
        pattern@.len() < usize::MAX / 4,
    ensures
        match regex_spec(pattern@) {
            Ok(m) => r matches Ok(x) && x@ == m,
            Err(e) => r matches Err(x) && x@ == e,
        },
{
    Regex::new(pattern)
}

fn sub_string(cs: &Vec<char>, a: usize, b: usize) -> (s: String)
    requires
        a <= b <= cs@.len(),
    ensures
        s@ == cs@.subrange(a as int, b as int),
{
    let mut s = String::new();
    push_chars(&mut s, cs.as_slice(), a, b);
    assert(s@ =~= cs@.subrange(a as int, b as int));
    s
}

/// The first match: its start, end and save slots (see `find_from_spec`).
fn first_match(re: &Regex, cs: &Vec<char>) -> (r: Result<Option<(usize, usize, Vec<Option<usize>>)>, String>)
    requires
        cs@.len() < usize::MAX,
    ensures
        match find_from_spec(re@, cs@, 0, 0).0 {
            Err(()) => r matches Err(e) && e@ == vm_err_msg(),
            Ok(None) => r matches Ok(None),
            Ok(Some((a, b, sv))) => r matches Ok(Some((x, y, v))) && x == a && y == b && v@ == sv
                && 0 <= a <= b <= cs@.len() && sv.len() == n_slots(re@),
        },
{
    proof {
        use_type_invariant(re);
        law_match_within_text(re@, cs@, 0, 0);
    }
    let mut steps: usize = 0;
    re.find_from(cs.as_slice(), 0, &mut steps)
}

/// ढूंढो: the text of the first match, `None` when there is none.
pub fn dhundho(pattern: &str, text: &str) -> (r: Result<Option<String>, String>)
    requires
        pattern@.len() < usize::MAX / 4,
        text@.len() < usize::MAX,
    ensures
        match regex_spec(pattern@) {
            Err(e) => r matches Err(x) && x@ == e,
            Ok(m) => match find_from_spec(m, text@, 0, 0).0 {
                Err(()) => r matches Err(x) && x@ == vm_err_msg(),
                Ok(None) => r matches Ok(None),
                Ok(Some((a, b, _sv))) => r matches Ok(Some(s)) && s@ == text@.subrange(a, b),
            },
        },
{
    let re = compile(pattern)?;
    let cs = str_chars(text);
    match first_match(&re, &cs) {
        Err(e) => Err(e),
        Ok(None) => Ok(None),
        Ok(Some((a, b, _sv))) => Ok(Some(sub_string(&cs, a, b))),
    }
}

/// ढूंढो_स्थान: the character position of the first match, -1 when there is none.
pub fn dhundho_sthan(pattern: &str, text: &str) -> (r: Result<i64, String>)
    requires
        pattern@.len() < usize::MAX / 4,
        text@.len() < i64::MAX,
        text@.len() < usize::MAX,
    ensures
        match regex_spec(pattern@) {
            Err(e) => r matches Err(x) && x@ == e,
            Ok(m) => match find_from_spec(m, text@, 0, 0).0 {
                Err(()) => r matches Err(x) && x@ == vm_err_msg(),
                Ok(None) => r matches Ok(p) && p == -1,
                Ok(Some((a, _b, _sv))) => r matches Ok(p) && p == a,
            },
        },
{
    let re = compile(pattern)?;
    let cs = str_chars(text);
    match first_match(&re, &cs) {
        Err(e) => Err(e),
        Ok(None) => Ok(-1),
        Ok(Some((a, _b, _sv))) => Ok(a as i64),
    }
}

/// The (start, end) pairs of a list, as integers.
pub open spec fn pairs_view(v: Seq<(usize, usize)>) -> Seq<(int, int)> {
    v.map_values(|p: (usize, usize)| (p.0 as int, p.1 as int))
}

/// `done` followed by what a run of the matcher gave, or its failure.
pub open spec fn prepend<T>(done: Seq<T>, r: Result<Seq<T>, ()>) -> Result<Seq<T>, ()> {
    match r {
        Err(()) => Err(()),
        Ok(x) => Ok(done + x),
    }
}

proof fn lemma_prepend_empty<T>(r: Result<Seq<T>, ()>)
    ensures
        prepend(Seq::<T>::empty(), r) == r,
{
    match r {
        Ok(x) => {
            assert(Seq::<T>::empty() + x =~= x);
        },
        Err(u) => {
            assert(u == ());
        },
    }
}

/// All matches of `re` in `cs` (see `all_matches_spec`).
fn all_matches(re: &Regex, cs: &Vec<char>) -> (r: Result<Vec<(usize, usize)>, String>)
    requires
        cs@.len() < usize::MAX,
    ensures
        match all_matches_spec(re@, cs@, 0, 0).0 {
            Err(()) => r matches Err(e) && e@ == vm_err_msg(),
            Ok(ms) => r matches Ok(v) && pairs_view(v@) == ms
                && forall|i: int| 0 <= i < ms.len() ==> 0 <= (#[trigger] ms[i]).0 <= ms[i].1 <= cs@.len(),
        },
{
    proof {
        use_type_invariant(re);
    }
    let ghost m = re@;
    let ghost t = cs@;
    let ghost total = all_matches_spec(m, t, 0, 0).0;
    let n = cs.len();
    let mut out: Vec<(usize, usize)> = Vec::new();
    let mut from: usize = 0;
    let mut steps: usize = 0;
    assert(pairs_view(out@) + seq![] =~= seq![]);
    loop
        invariant
            m == re@,
            t == cs@,
            regex_wf(m),
            n == t.len(),
            n < usize::MAX,
            from <= n,
            steps <= STEP_BUDGET,
            total == all_matches_spec(m, t, 0, 0).0,
            forall|i: int| 0 <= i < out@.len() ==> 0 <= (#[trigger] out@[i]).0 <= out@[i].1 <= n,
            total == prepend(pairs_view(out@), all_matches_spec(m, t, from as int, steps as int).0),
        decreases n + 1 - from,
    {
        let ghost s0 = steps;
        let ghost old_out = out@;
        proof {
            law_match_within_text(m, t, from as int, s0 as int);
        }
        match re.find_from(cs.as_slice(), from, &mut steps) {
            Err(e) => {
                return Err(e);
            },
            Ok(None) => {
                assert(pairs_view(old_out) + seq![] =~= pairs_view(old_out));
                return Ok(out);
            },
            Ok(Some((a, b, _sv))) => {
                out.push((a, b));
                assert(pairs_view(out@) =~= pairs_view(old_out) + seq![(a as int, b as int)]);
                let next = if b > a { b } else { b + 1 };
                if next > n {
                    assert(pairs_view(old_out) + seq![(a as int, b as int)] =~= pairs_view(out@));
                    return Ok(out);
                }
                proof {
                    let rest = all_matches_spec(m, t, next as int, steps as int).0;
                    match rest {
                        Err(()) => {},
                        Ok(x) => {
                            assert(pairs_view(old_out) + (seq![(a as int, b as int)] + x) =~= pairs_view(out@) + x);
                        },
                    }
                }
                from = next;
            },
        }
    }
}

/// ढूंढो_सब: the texts of all matches, one after another.
pub fn dhundho_sab(pattern: &str, text: &str) -> (r: Result<Vec<String>, String>)
    requires
        pattern@.len() < usize::MAX / 4,
        text@.len() < usize::MAX,
    ensures
        match regex_spec(pattern@) {
            Err(e) => r matches Err(x) && x@ == e,
            Ok(m) => match all_matches_spec(m, text@, 0, 0).0 {
                Err(()) => r matches Err(x) && x@ == vm_err_msg(),
                Ok(ms) => r matches Ok(v) && strings_view(v@) == pair_texts(text@, ms),
            },
        },
{
    let re = compile(pattern)?;
    let cs = str_chars(text);
    let ghost t = cs@;
    let pairs = all_matches(&re, &cs)?;
    let ghost ms = all_matches_spec(re@, t, 0, 0).0->Ok_0;
    let mut out: Vec<String> = Vec::new();
    let mut i: usize = 0;
    while i < pairs.len()
        invariant
            i <= pairs@.len(),
            pairs@.len() == ms.len(),
            t == cs@,
            pairs_view(pairs@) == ms,
            forall|k: int| 0 <= k < ms.len() ==> 0 <= (#[trigger] ms[k]).0 <= ms[k].1 <= t.len(),
            out@.len() == i,
            strings_view(out@) == pair_texts(t, ms).take(i as int),
        decreases pairs@.len() - i,
    {
        let (a, b) = pairs[i];
        assert(pairs_view(pairs@)[i as int] == (a as int, b as int));
        assert(ms[i as int] == (a as int, b as int));
        let ghost old_out = out@;
        let s = sub_string(&cs, a, b);
        out.push(s);
        i = i + 1;
        assert forall|k: int| 0 <= k < i implies #[trigger] strings_view(out@)[k] == pair_texts(t, ms).take(i as int)[k] by {
            if k < i - 1 {
                assert(out@[k] == old_out[k]);
                assert(strings_view(old_out)[k] == pair_texts(t, ms).take(i - 1)[k]);
            }
        }
        assert(strings_view(out@) =~= pair_texts(t, ms).take(i as int));
    }
    assert(pair_texts(t, ms).take(i as int) =~= pair_texts(t, ms));
    Ok(out)
}

/// मेल_है: whether the whole text matches. The pattern is run from the start
/// of the text with an end anchor after it, so some accepting path must cover
/// the whole text.
pub fn mel_hai(pattern: &str, text: &str) -> (r: Result<bool, String>)
    requires
        pattern@.len() < usize::MAX / 4,
    ensures
        match regex_spec(pattern@) {
            Err(e) => r matches Err(x) && x@ == e,
            Ok(m) => match exec_at_spec(anchored_spec(m), text@, 0, 0).0 {
                Err(()) => r matches Err(x) && x@ == vm_err_msg(),
                Ok(None) => r matches Ok(b) && !b,
                Ok(Some(_)) => r matches Ok(b) && b,
            },
        },
{
    let re = compile(pattern)?;
    let whole = re.anchored();
    let cs = str_chars(text);
    let mut steps: usize = 0;
    match whole.exec_at(cs.as_slice(), 0, &mut steps) {
        Err(e) => Err(e),
        Ok(None) => Ok(false),
        Ok(Some(_)) => Ok(true),
    }
}

/// The texts of groups 0 to `ng` of one match.
pub open spec fn groups_spec(t: Seq<char>, sv: Seq<Option<usize>>, ng: int) -> Seq<Seq<char>> {
    Seq::new((ng + 1) as nat, |g: int| group_text(t, sv, g))
}

fn group_string(cs: &Vec<char>, saves: &Vec<Option<usize>>, g: usize) -> (s: String)
    requires
        2 * g + 1 < saves@.len() <= usize::MAX,
    ensures
        s@ == group_text(cs@, saves@, g as int),
{
    match (saves[2 * g], saves[2 * g + 1]) {
        (Some(a), Some(b)) => {
            if a <= b && b <= cs.len() {
                sub_string(cs, a, b)
            } else {
                String::new()
            }
        },
        _ => String::new(),
    }
}

/// समूह: the whole first match and each group's text, empty for a group that
/// took no part; an empty list when nothing matches.
pub fn samuh(pattern: &str, text: &str) -> (r: Result<Vec<String>, String>)
    requires
        pattern@.len() < usize::MAX / 4,
        text@.len() < usize::MAX,
    ensures
        match regex_spec(pattern@) {
            Err(e) => r matches Err(x) && x@ == e,
            Ok(m) => match find_from_spec(m, text@, 0, 0).0 {
                Err(()) => r matches Err(x) && x@ == vm_err_msg(),
                Ok(None) => r matches Ok(v) && v@.len() == 0,
                Ok(Some((_a, _b, sv))) => r matches Ok(v) && strings_view(v@) == groups_spec(text@, sv, m.n_groups as int),
            },
        },
{
    let re = compile(pattern)?;
    let cs = str_chars(text);
    proof {
        use_type_invariant(&re);
    }
    match first_match(&re, &cs) {
        Err(e) => Err(e),
        Ok(None) => Ok(Vec::new()),
        Ok(Some((_a, _b, saves))) => {
            let ng = re.n_groups();
            let sl = saves.len();
            let mut out: Vec<String> = Vec::new();
            let mut g: usize = 0;
            while g <= ng
                invariant
                    g <= ng + 1,
                    ng == re@.n_groups,
                    sl == saves@.len(),
                    saves@.len() >= 2 * (ng + 1),
                    2 * (ng + 1) <= usize::MAX,
                    out@.len() == g,
                    strings_view(out@) == groups_spec(cs@, saves@, ng as int).take(g as int),
                decreases ng + 1 - g,
            {
                let ghost old_out = out@;
                let s = group_string(&cs, &saves, g);
                out.push(s);
                g = g + 1;
                assert forall|k: int| 0 <= k < g implies #[trigger] strings_view(out@)[k] == groups_spec(cs@, saves@, ng as int).take(g as int)[k] by {
                    if k < g - 1 {
                        assert(out@[k] == old_out[k]);
                        assert(strings_view(old_out)[k] == groups_spec(cs@, saves@, ng as int).take(g - 1)[k]);
                    }
                }
                assert(strings_view(out@) =~= groups_spec(cs@, saves@, ng as int).take(g as int));
            }
            assert(groups_spec(cs@, saves@, ng as int).take(g as int) =~= groups_spec(cs@, saves@, ng as int));
            Ok(out)
        },
    }
}

/// Appends the expanded replacement (see `expand_spec`) to `out`.
fn expand(repl: &Vec<char>, cs: &Vec<char>, saves: &Vec<Option<usize>>, ng: usize, out: &mut String)
    requires
        saves@.len() >= 2 * (ng + 1),
        2 * (ng + 1) <= usize::MAX,
    ensures
        final(out)@ == old(out)@ + expand_spec(repl@, cs@, saves@, ng as int, 0),
{
    let ghost r = repl@;
    let ghost t = cs@;
    let ghost sv = saves@;
    let ghost goal = old(out)@ + expand_spec(r, t, sv, ng as int, 0);
    let n = repl.len();
    let sl = saves.len();
    let mut i: usize = 0;
    while i < n
        invariant
            n == r.len(),
            r == repl@,
            t == cs@,
            sv == saves@,
            sl == saves@.len(),
            saves@.len() >= 2 * (ng + 1),
            2 * (ng + 1) <= usize::MAX,
            i <= n + 1,
            goal == out@ + expand_spec(r, t, sv, ng as int, i as int),
        decreases n + 1 - i,
    {
        let c = repl[i];
        if c == '$' && i + 1 < n && repl[i + 1] == '$' {
            let ghost before = out@;
            push_char(out, '$');
            assert(before + (seq!['$'] + expand_spec(r, t, sv, ng as int, i + 2)) =~= out@ + expand_spec(r, t, sv, ng as int, i + 2));
            i = i + 2;
        } else if c == '$' && i + 1 < n && '0' <= repl[i + 1] && repl[i + 1] <= '9' && ((repl[i + 1] as u32) - ('0' as u32)) as usize <= ng {
            let g = ((repl[i + 1] as u32) - ('0' as u32)) as usize;
            let ghost before = out@;
            let piece = group_string(cs, saves, g);
            push_chars(out, piece_chars(&piece).as_slice(), 0, piece.unicode_len());
            assert(out@ =~= before + group_text(t, sv, g as int));
            assert(before + (group_text(t, sv, g as int) + expand_spec(r, t, sv, ng as int, i + 2)) =~= out@ + expand_spec(r, t, sv, ng as int, i + 2));
            i = i + 2;
        } else {
            let ghost before = out@;
            push_char(out, c);
            assert(before + (seq![c] + expand_spec(r, t, sv, ng as int, i + 1)) =~= out@ + expand_spec(r, t, sv, ng as int, i + 1));
            i = i + 1;
        }
    }
    assert(out@ + expand_spec(r, t, sv, ng as int, i as int) =~= out@);
}

fn piece_chars(s: &String) -> (v: Vec<char>)
    ensures
        v@ == s@,
{
    str_chars(s.as_str())
}

/// बदलो_सब: every match replaced by the expanded replacement (`$$` is `$`,
/// `$0`..`$9` a group's text).
#[verifier::rlimit(60)]
pub fn badlo_sab(pattern: &str, repl: &str, text: &str) -> (r: Result<String, String>)
    requires
        pattern@.len() < usize::MAX / 4,
        text@.len() < usize::MAX,
    ensures
        match regex_spec(pattern@) {
            Err(e) => r matches Err(x) && x@ == e,
            Ok(m) => match replace_spec(m, text@, repl@, 0, 0).0 {
                Err(()) => r matches Err(x) && x@ == vm_err_msg(),
                Ok(o) => r matches Ok(x) && x@ == o,
            },
        },
{
    let re = compile(pattern)?;
    let rc = str_chars(repl);
    let cs = str_chars(text);
    proof {
        use_type_invariant(&re);
    }
    let ghost m = re@;
    let ghost t = cs@;
    let ghost total = replace_spec(m, t, rc@, 0, 0).0;
    let ng = re.n_groups();
    let n = cs.len();
    let mut out = String::new();
    let mut from: usize = 0;
    let mut steps: usize = 0;
    proof {
        match replace_spec(m, t, rc@, 0, 0).0 {
            Err(()) => {},
            Ok(x) => {
                assert(out@ + x =~= x);
            },
        }
    }
    loop
        invariant
            m == re@,
            regex_spec(pattern@) == Ok::<RegexModel, Seq<char>>(m),
            t == cs@,
            t == text@,
            rc@ == repl@,
            regex_wf(m),
            ng == m.n_groups,
            n == t.len(),
            n < usize::MAX,
            from <= n,
            steps <= STEP_BUDGET,
            total == replace_spec(m, t, rc@, 0, 0).0,
            total == prepend(out@, replace_spec(m, t, rc@, from as int, steps as int).0),
        decreases n + 1 - from,
    {
        let ghost s0 = steps;
        let ghost before = out@;
        proof {
            law_match_within_text(m, t, from as int, s0 as int);
        }
        match re.find_from(cs.as_slice(), from, &mut steps) {
            Err(e) => {
assert(replace_spec(m, t, rc@, from as int, s0 as int).0 is Err);
                assert(total is Err);
                assert(t == text@);
                assert(rc@ == repl@);
                assert(replace_spec(re@, text@, repl@, 0, 0).0 is Err);
                assert(regex_spec(pattern@) == Ok::<RegexModel, Seq<char>>(re@));
                return Err(e);
            },
            Ok(None) => {
                push_chars(&mut out, cs.as_slice(), from, n);
                return Ok(out);
            },
            Ok(Some((a, b, saves))) => {
                push_chars(&mut out, cs.as_slice(), from, a);
                expand(&rc, &cs, &saves, ng, &mut out);
                let next = if b > a {
                    b
                } else {
                    if b < n {
                        push_char(&mut out, cs[b]);
                    }
                    b + 1
                };
                let ghost piece = t.subrange(from as int, a as int) + expand_spec(rc@, t, saves@, ng as int, 0) + if b <= a && b < t.len() {
                    seq![t[b as int]]
                } else {
                    seq![]
                };
                assert(out@ =~= before + piece);
                if next > n {
                    return Ok(out);
                }
                proof {
                    let rest = replace_spec(m, t, rc@, next as int, steps as int).0;
                    match rest {
                        Err(()) => {},
                        Ok(x) => {
                            assert(before + (piece + x) =~= out@ + x);
                        },
                    }
                }
                from = next;
            },
        }
    }
}

/// विभाजित_सब: the pieces of the text between non-empty matches (an empty
/// match splits nothing).
pub fn vibhajit_sab(pattern: &str, text: &str) -> (r: Result<Vec<String>, String>)
    requires
        pattern@.len() < usize::MAX / 4,
        text@.len() < usize::MAX,
    ensures
        match regex_spec(pattern@) {
            Err(e) => r matches Err(x) && x@ == e,
            Ok(m) => match split_spec(m, text@, 0, 0, 0).0 {
                Err(()) => r matches Err(x) && x@ == vm_err_msg(),
                Ok(ps) => r matches Ok(v) && strings_view(v@) == ps,
            },
        },
{
    let re = compile(pattern)?;
    let cs = str_chars(text);
    proof {
        use_type_invariant(&re);
    }
    let ghost m = re@;
    let ghost t = cs@;
    let ghost total = split_spec(m, t, 0, 0, 0).0;
    let n = cs.len();
    let mut out: Vec<String> = Vec::new();
    let mut from: usize = 0;
    let mut search: usize = 0;
    let mut steps: usize = 0;
    proof {
        assert(strings_view(out@) =~= Seq::<Seq<char>>::empty());
        lemma_prepend_empty(total);
    }
    loop
        invariant
            m == re@,
            regex_spec(pattern@) == Ok::<RegexModel, Seq<char>>(m),
            t == cs@,
            t == text@,
            regex_wf(m),
            n == t.len(),
            n < usize::MAX,
            from <= search <= n,
            steps <= STEP_BUDGET,
            total == split_spec(m, t, 0, 0, 0).0,
            total == prepend(strings_view(out@), split_spec(m, t, from as int, search as int, steps as int).0),
        decreases n + 1 - search,
    {
        let ghost s0 = steps;
        let ghost before = strings_view(out@);
        proof {
            law_match_within_text(m, t, search as int, s0 as int);
        }
        match re.find_from(cs.as_slice(), search, &mut steps) {
            Err(e) => {
                return Err(e);
            },
            Ok(None) => {
                let last = sub_string(&cs, from, n);
                out.push(last);
                assert(strings_view(out@) =~= before + seq![t.subrange(from as int, n as int)]);
                return Ok(out);
            },
            Ok(Some((a, b, _sv))) => {
                if b == a {
                    if a + 1 > n {
                        let last = sub_string(&cs, from, n);
                        out.push(last);
                        assert(strings_view(out@) =~= before + seq![t.subrange(from as int, n as int)]);
                        return Ok(out);
                    }
                    search = a + 1;
                } else {
                    let piece = sub_string(&cs, from, a);
                    out.push(piece);
                    assert(strings_view(out@) =~= before + seq![t.subrange(from as int, a as int)]);
                    proof {
                        let rest = split_spec(m, t, b as int, b as int, steps as int).0;
                        match rest {
                            Err(()) => {},
                            Ok(x) => {
                                assert(before + (seq![t.subrange(from as int, a as int)] + x) =~= strings_view(out@) + x);
                            },
                        }
                    }
                    from = b;
                    search = b;
                }
            },
        }
    }
}

} // verus!
