//! List helpers of the standard library: the deque functions (अग्र_जोड़ो,
//! अग्र, पश्च, अग्र_हटाओ, पश्च_हटाओ), श्रृंखला (chain), गिनती_कोश (counter)
//! and the key lookup of the insertion-ordered dictionary (क्रमित_*).
//! Lists are values: each function takes a list and gives a new one.
use vstd::prelude::*;
use crate::text::str_eq;

verus! {

/// Most elements a list may hold.
pub const MAX_LIST_LEN: usize = 50000000;

/// The error for a list that would grow past `MAX_LIST_LEN`.
pub open spec fn limit_msg() -> Seq<char> {
    "स्मृति सीमा पार: सूची की लम्बाई 50000000 से अधिक नहीं हो सकती"@
}

fn limit_error() -> (s: String)
    ensures
        s@ == limit_msg(),
{
    "स्मृति सीमा पार: सूची की लम्बाई 50000000 से अधिक नहीं हो सकती".to_owned()
}

/// अग्र_जोड़ो: the list with `x` put in front, unless that list would be
/// longer than `MAX_LIST_LEN`.
pub fn agra_jodo<T>(v: Vec<T>, x: T) -> (r: Result<Vec<T>, String>)
    ensures
        v@.len() + 1 > MAX_LIST_LEN ==> (r matches Err(e) && e@ == limit_msg()),
        v@.len() + 1 <= MAX_LIST_LEN ==> (r matches Ok(w) && w@ == seq![x] + v@),
{
    if v.len() >= MAX_LIST_LEN {
        return Err(limit_error());
    }
    let mut w = v;
    w.insert(0, x);
    assert(w@ =~= seq![x] + v@);
    Ok(w)
}

/// अग्र: the first element; an error for the empty list.
pub fn agra<T>(v: Vec<T>) -> (r: Result<T, String>)
    ensures
        v@.len() == 0 ==> (r matches Err(e) && e@ == "अग्र(): सूची खाली है"@),
        v@.len() > 0 ==> (r matches Ok(x) && x == v@[0]),
{
    if v.len() == 0 {
        return Err("अग्र(): सूची खाली है".to_owned());
    }
    let mut w = v;
    Ok(w.remove(0))
}

/// पश्च: the last element; an error for the empty list.
pub fn pashcha<T>(v: Vec<T>) -> (r: Result<T, String>)
    ensures
        v@.len() == 0 ==> (r matches Err(e) && e@ == "पश्च(): सूची खाली है"@),
        v@.len() > 0 ==> (r matches Ok(x) && x == v@.last()),
{
    let mut w = v;
    match w.pop() {
        Some(x) => Ok(x),
        None => Err("पश्च(): सूची खाली है".to_owned()),
    }
}

/// अग्र_हटाओ: the list without its first element; an error for the empty list.
pub fn agra_hatao<T>(v: Vec<T>) -> (r: Result<Vec<T>, String>)
    ensures
        v@.len() == 0 ==> (r matches Err(e) && e@ == "अग्र_हटाओ(): सूची खाली है"@),
        v@.len() > 0 ==> (r matches Ok(w) && w@ == v@.drop_first()),
{
    if v.len() == 0 {
        return Err("अग्र_हटाओ(): सूची खाली है".to_owned());
    }
    let mut w = v;
    w.remove(0);
    assert(w@ =~= v@.drop_first());
    Ok(w)
}

/// पश्च_हटाओ: the list without its last element; an error for the empty list.
pub fn pashcha_hatao<T>(v: Vec<T>) -> (r: Result<Vec<T>, String>)
    ensures
        v@.len() == 0 ==> (r matches Err(e) && e@ == "पश्च_हटाओ(): सूची खाली है"@),
        v@.len() > 0 ==> (r matches Ok(w) && w@ == v@.drop_last()),
{
    if v.len() == 0 {
        return Err("पश्च_हटाओ(): सूची खाली है".to_owned());
    }
    let mut w = v;
    w.pop();
    Ok(w)
}

/// The elements of the lists, one list after another.
pub open spec fn lists_flat<T>(s: Seq<Vec<T>>) -> Seq<T> {
    s.map_values(|l: Vec<T>| l@).flatten()
}

proof fn lemma_lists_flat_first<T>(s: Seq<Vec<T>>)
    requires
        s.len() > 0,
    ensures
        lists_flat(s) == s[0]@ + lists_flat(s.drop_first()),
{
    let m = s.map_values(|l: Vec<T>| l@);
    assert(m.drop_first() =~= s.drop_first().map_values(|l: Vec<T>| l@));
}

/// श्रृंखला: the lists joined into one, in order.
pub fn shrinkhala<T>(lists: Vec<Vec<T>>) -> (r: Vec<T>)
    ensures
        r@ == lists_flat(lists@),
{
    let mut rest = lists;
    let mut out: Vec<T> = Vec::new();
    assert(lists_flat(lists@) =~= out@ + lists_flat(rest@));
    while rest.len() > 0
        invariant
            out@ + lists_flat(rest@) == lists_flat(lists@),
        decreases rest@.len(),
    {
        proof {
            lemma_lists_flat_first(rest@);
        }
        let ghost before = rest@;
        let mut l = rest.remove(0);
        assert(rest@ =~= before.drop_first());
        let ghost lv = l@;
        out.append(&mut l);
        assert(out@ + lists_flat(rest@) =~= lists_flat(lists@));
    }
    assert(lists_flat(rest@) =~= Seq::<T>::empty());
    assert(out@ + lists_flat(rest@) =~= out@);
    out
}

/// How often `k` occurs in `s`.
pub open spec fn occurrences(s: Seq<Seq<char>>, k: Seq<char>) -> nat
    decreases s.len(),
{
    if s.len() == 0 {
        0
    } else {
        occurrences(s.drop_last(), k) + if s.last() == k {
            1nat
        } else {
            0nat
        }
    }
}

/// The keys of a tally, in order.
pub open spec fn tally_keys(t: Seq<(String, usize)>) -> Seq<Seq<char>> {
    t.map_values(|e: (String, usize)| e.0@)
}

/// Some occurrence of `a` in `s` comes before every occurrence of `b`.
pub open spec fn comes_first(s: Seq<Seq<char>>, a: Seq<char>, b: Seq<char>) -> bool {
    exists|p: int| 0 <= p < s.len() && s[p] == a && forall|q: int| 0 <= q <= p ==> #[trigger] s[q] != b
}

/// A tally of `s`: each distinct key once, in the order of its first
/// occurrence, with the number of times it occurs.
pub open spec fn is_tally(t: Seq<(String, usize)>, s: Seq<Seq<char>>) -> bool {
    &&& forall|i: int, j: int| 0 <= i < j < t.len() ==> #[trigger] t[i].0@ != #[trigger] t[j].0@
    &&& forall|i: int| 0 <= i < t.len() ==> #[trigger] t[i].1 == occurrences(s, t[i].0@) && s.contains(t[i].0@)
    &&& forall|k: int| 0 <= k < s.len() ==> tally_keys(t).contains(#[trigger] s[k])
    &&& forall|i: int, j: int| 0 <= i < j < t.len() ==> comes_first(s, #[trigger] t[i].0@, #[trigger] t[j].0@)
}

proof fn lemma_occ_positive(s: Seq<Seq<char>>, k: Seq<char>)
    requires
        s.contains(k),
    ensures
        occurrences(s, k) >= 1,
    decreases s.len(),
{
    if s.last() != k {
        let j = choose|j: int| 0 <= j < s.len() && s[j] == k;
        assert(s.drop_last()[j] == k);
        lemma_occ_positive(s.drop_last(), k);
    }
}

proof fn lemma_occ_absent(s: Seq<Seq<char>>, k: Seq<char>)
    requires
        !s.contains(k),
    ensures
        occurrences(s, k) == 0,
    decreases s.len(),
{
    if s.len() > 0 {
        assert(!s.drop_last().contains(k)) by {
            if s.drop_last().contains(k) {
                let j = choose|j: int| 0 <= j < s.drop_last().len() && s.drop_last()[j] == k;
                assert(s[j] == k);
            }
        }
        lemma_occ_absent(s.drop_last(), k);
    }
}

proof fn lemma_occ_le(s: Seq<Seq<char>>, k: Seq<char>)
    ensures
        occurrences(s, k) <= s.len(),
    decreases s.len(),
{
    if s.len() > 0 {
        lemma_occ_le(s.drop_last(), k);
    }
}

/// Where `key` stands among the keys, if it does.
fn tally_find(t: &Vec<(String, usize)>, key: &str) -> (r: Option<usize>)
    ensures
        match r {
            Some(i) => i < t@.len() && t@[i as int].0@ == key@,
            None => forall|i: int| 0 <= i < t@.len() ==> #[trigger] t@[i].0@ != key@,
        },
{
    let mut i: usize = 0;
    while i < t.len()
        invariant
            i <= t@.len(),
            forall|j: int| 0 <= j < i ==> #[trigger] t@[j].0@ != key@,
        decreases t@.len() - i,
    {
        if str_eq(t[i].0.as_str(), key) {
            return Some(i);
        }
        i = i + 1;
    }
    None
}

/// `t1` is `t0` with the count of entry `i` raised by one.
pub open spec fn bumped(t0: Seq<(String, usize)>, t1: Seq<(String, usize)>, i: int) -> bool {
    &&& t1.len() == t0.len()
    &&& t1[i].0@ == t0[i].0@
    &&& t1[i].1 == t0[i].1 + 1
    &&& forall|j: int| 0 <= j < t0.len() && j != i ==> #[trigger] t1[j] == t0[j]
}

proof fn lemma_tally_step(t0: Seq<(String, usize)>, t1: Seq<(String, usize)>, s0: Seq<Seq<char>>, k: Seq<char>)
    requires
        is_tally(t0, s0),
        (exists|i: int| 0 <= i < t0.len() && #[trigger] t0[i].0@ == k && bumped(t0, t1, i))
            || ((forall|i: int| 0 <= i < t0.len() ==> #[trigger] t0[i].0@ != k) && t1.len() == t0.len() + 1
                && t1.drop_last() == t0 && t1.last().0@ == k && t1.last().1 == 1),
    ensures
        is_tally(t1, s0.push(k)),
{
    let s1 = s0.push(k);
    assert(s1.drop_last() =~= s0);
    assert forall|x: Seq<char>| x != k implies occurrences(s1, x) == occurrences(s0, x) by {}
    assert(occurrences(s1, k) == occurrences(s0, k) + 1);
    assert forall|x: Seq<char>| s0.contains(x) implies s1.contains(x) by {
        let j = choose|j: int| 0 <= j < s0.len() && s0[j] == x;
        assert(s1[j] == x);
    }
    assert(s1.contains(k)) by {
        assert(s1[s0.len() as int] == k);
    }
    assert forall|a: Seq<char>, b: Seq<char>| comes_first(s0, a, b) implies comes_first(s1, a, b) by {
        let p = choose|p: int| 0 <= p < s0.len() && s0[p] == a && forall|q: int| 0 <= q <= p ==> #[trigger] s0[q] != b;
        assert(s1[p] == a);
        assert forall|q: int| 0 <= q <= p implies #[trigger] s1[q] != b by {
            assert(s1[q] == s0[q]);
        }
    }
    if exists|i: int| 0 <= i < t0.len() && #[trigger] t0[i].0@ == k && bumped(t0, t1, i) {
        let i = choose|i: int| 0 <= i < t0.len() && #[trigger] t0[i].0@ == k && bumped(t0, t1, i);
        assert(t0[i].1 == occurrences(s0, k));
        assert forall|a: int, b: int| 0 <= a < b < t1.len() implies #[trigger] t1[a].0@ != #[trigger] t1[b].0@ by {
            assert(t1[a].0@ == t0[a].0@ && t1[b].0@ == t0[b].0@);
        }
        assert forall|j: int| 0 <= j < t1.len() implies #[trigger] t1[j].1 == occurrences(s1, t1[j].0@) && s1.contains(t1[j].0@) by {
            if j != i {
                assert(t1[j] == t0[j]);
                assert(t0[j].0@ != t0[i].0@);
            }
        }
        assert forall|q: int| 0 <= q < s1.len() implies tally_keys(t1).contains(#[trigger] s1[q]) by {
            if q < s0.len() {
                assert(s1[q] == s0[q]);
                assert(tally_keys(t0).contains(s0[q]));
                let j = choose|j: int| 0 <= j < tally_keys(t0).len() && tally_keys(t0)[j] == s0[q];
                assert(tally_keys(t1)[j] == t1[j].0@);
                assert(t1[j].0@ == t0[j].0@);
            } else {
                assert(tally_keys(t1)[i] == k);
            }
        }
        assert forall|a: int, b: int| 0 <= a < b < t1.len() implies comes_first(s1, #[trigger] t1[a].0@, #[trigger] t1[b].0@) by {
            assert(t1[a].0@ == t0[a].0@ && t1[b].0@ == t0[b].0@);
            assert(comes_first(s0, t0[a].0@, t0[b].0@));
        }
    } else {
        let m = t0.len() as int;
        assert forall|j: int| 0 <= j < m implies #[trigger] t1[j] == t0[j] by {
            assert(t1.drop_last()[j] == t1[j]);
        }
        lemma_occ_absent(s0, k);
        assert forall|a: int, b: int| 0 <= a < b < t1.len() implies #[trigger] t1[a].0@ != #[trigger] t1[b].0@ by {
            if b < m {
                assert(t1[a] == t0[a] && t1[b] == t0[b]);
            } else {
                assert(t1[a] == t0[a]);
            }
        }
        assert forall|j: int| 0 <= j < t1.len() implies #[trigger] t1[j].1 == occurrences(s1, t1[j].0@) && s1.contains(t1[j].0@) by {
            if j < m {
                assert(t1[j] == t0[j]);
            }
        }
        assert forall|q: int| 0 <= q < s1.len() implies tally_keys(t1).contains(#[trigger] s1[q]) by {
            if q < s0.len() {
                assert(s1[q] == s0[q]);
                assert(tally_keys(t0).contains(s0[q]));
                let j = choose|j: int| 0 <= j < tally_keys(t0).len() && tally_keys(t0)[j] == s0[q];
                assert(t1[j] == t0[j]);
                assert(tally_keys(t1)[j] == s1[q]);
            } else {
                assert(tally_keys(t1)[m] == k);
            }
        }
        assert forall|a: int, b: int| 0 <= a < b < t1.len() implies comes_first(s1, #[trigger] t1[a].0@, #[trigger] t1[b].0@) by {
            assert(t1[a] == t0[a]);
            if b < m {
                assert(t1[b] == t0[b]);
                assert(comes_first(s0, t0[a].0@, t0[b].0@));
            } else {
                let x = t0[a].0@;
                assert(t0[a].1 == occurrences(s0, x));
                assert(s0.contains(x));
                let p = choose|p: int| 0 <= p < s0.len() && s0[p] == x;
                assert(s1[p] == x);
                assert forall|q: int| 0 <= q <= p implies #[trigger] s1[q] != k by {
                    assert(s1[q] == s0[q]);
                }
            }
        }
    }
}

/// गिनती_कोश: how often each key occurs (see `is_tally`).
pub fn ginti_kosh(keys: &Vec<String>) -> (r: Vec<(String, usize)>)
    ensures
        is_tally(r@, keys@.map_values(|k: String| k@)),
{
    let ghost all = keys@.map_values(|k: String| k@);
    let mut t: Vec<(String, usize)> = Vec::new();
    let mut n: usize = 0;
    assert(all.take(0) =~= Seq::<Seq<char>>::empty());
    while n < keys.len()
        invariant
            n <= keys@.len(),
            all == keys@.map_values(|k: String| k@),
            is_tally(t@, all.take(n as int)),
        decreases keys@.len() - n,
    {
        let ghost s0 = all.take(n as int);
        let ghost k = keys@[n as int]@;
        assert(all.take(n + 1) =~= s0.push(k));
        let ghost t0 = t@;
        match tally_find(&t, keys[n].as_str()) {
            Some(i) => {
                proof {
                    lemma_occ_le(s0, k);
                }
                let c = t[i].1;
                let name = keys[n].clone();
                t.set(i, (name, c + 1));
                assert(bumped(t0, t@, i as int));
            },
            None => {
                t.push((keys[n].clone(), 1));
                assert(t@.drop_last() =~= t0);
            },
        }
        proof {
            lemma_tally_step(t0, t@, s0, k);
        }
        n = n + 1;
    }
    assert(all.take(n as int) =~= all);
    t
}


/// Whether an entry's key (the text of its first element, `None` for an
/// entry that is not a non-empty pair list) is `key`.
pub open spec fn key_is(k: Option<String>, key: Seq<char>) -> bool {
    k matches Some(x) && x@ == key
}

/// क्रमित_पाओ / क्रमित_रखो: the first entry whose key is `key`.
pub fn kramit_khojo(keys: &Vec<Option<String>>, key: &str) -> (r: Option<usize>)
    ensures
        match r {
            Some(i) => i < keys@.len() && key_is(keys@[i as int], key@)
                && forall|j: int| 0 <= j < i ==> !key_is(#[trigger] keys@[j], key@),
            None => forall|j: int| 0 <= j < keys@.len() ==> !key_is(#[trigger] keys@[j], key@),
        },
{
    let mut i: usize = 0;
    while i < keys.len()
        invariant
            i <= keys@.len(),
            forall|j: int| 0 <= j < i ==> !key_is(#[trigger] keys@[j], key@),
        decreases keys@.len() - i,
    {
        match &keys[i] {
            Some(x) => {
                if str_eq(x.as_str(), key) {
                    return Some(i);
                }
            },
            None => {},
        }
        i = i + 1;
    }
    None
}

/// Where क्रमित_रखो puts a value: `Ok(Some(i))` to set the value of the first
/// entry with that key, `Ok(None)` to append a new entry, or the length
/// error when a new entry would make the list too long.
pub fn kramit_rakho_sthan(keys: &Vec<Option<String>>, key: &str) -> (r: Result<Option<usize>, String>)
    ensures
        match r {
            Ok(Some(i)) => i < keys@.len() && key_is(keys@[i as int], key@)
                && forall|j: int| 0 <= j < i ==> !key_is(#[trigger] keys@[j], key@),
            Ok(None) => keys@.len() + 1 <= MAX_LIST_LEN
                && forall|j: int| 0 <= j < keys@.len() ==> !key_is(#[trigger] keys@[j], key@),
            Err(e) => e@ == limit_msg() && keys@.len() + 1 > MAX_LIST_LEN
                && forall|j: int| 0 <= j < keys@.len() ==> !key_is(#[trigger] keys@[j], key@),
        },
{
    match kramit_khojo(keys, key) {
        Some(i) => Ok(Some(i)),
        None => {
            if keys.len() >= MAX_LIST_LEN {
                Err(limit_error())
            } else {
                Ok(None)
            }
        },
    }
}

/// The least of the lengths.
pub open spec fn min_len(lens: Seq<usize>) -> int
    decreases lens.len(),
{
    if lens.len() == 0 {
        0
    } else if lens.len() == 1 {
        lens[0] as int
    } else {
        let m = min_len(lens.drop_last());
        if (lens.last() as int) < m {
            lens.last() as int
        } else {
            m
        }
    }
}

/// युग्म: how many rows zipping lists of these lengths gives: the shortest
/// length, or 0 for no lists. Row `i` holds element `i` of each list.
pub fn yugm_panktiyan(lens: &Vec<usize>) -> (n: usize)
    ensures
        n == min_len(lens@),
        forall|j: int| 0 <= j < lens@.len() ==> n <= #[trigger] lens@[j],
        lens@.len() > 0 ==> exists|j: int| 0 <= j < lens@.len() && n == #[trigger] lens@[j],
{
    if lens.len() == 0 {
        return 0;
    }
    let mut m = lens[0];
    let mut i: usize = 1;
    assert(lens@.take(1) =~= seq![lens@[0]]);
    while i < lens.len()
        invariant
            1 <= i <= lens@.len(),
            m == min_len(lens@.take(i as int)),
            forall|j: int| 0 <= j < i ==> m <= #[trigger] lens@[j],
            exists|j: int| 0 <= j < i && m == #[trigger] lens@[j],
        decreases lens@.len() - i,
    {
        assert(lens@.take(i + 1).drop_last() =~= lens@.take(i as int));
        if lens[i] < m {
            m = lens[i];
        }
        i = i + 1;
    }
    assert(lens@.take(i as int) =~= lens@);
    m
}
} // verus!
