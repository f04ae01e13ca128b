//! A table keyed by name, kept sorted by name (code-point order, which is the
//! byte order of the names' UTF-8) with each name at most once. Inserting an
//! existing name replaces its value, as a map does; walking the table visits
//! names in sorted order, so anything written from it is deterministic.

use vstd::prelude::*;
use crate::text::str_chars;

verus! {

/// `a` sorts strictly before `b`: at the first position where they differ `a`
/// has the smaller character, or `a` is a proper prefix of `b`.
pub open spec fn name_lt(a: Seq<char>, b: Seq<char>) -> bool {
    exists|k: int| #[trigger] lt_at(a, b, k)
}

pub open spec fn lt_at(a: Seq<char>, b: Seq<char>, k: int) -> bool {
    &&& 0 <= k <= a.len()
    &&& k <= b.len()
    &&& a.subrange(0, k) == b.subrange(0, k)
    &&& ((k == a.len() && k < b.len()) || (k < a.len() && k < b.len() && a[k] < b[k]))
}

pub proof fn lemma_lt_irreflexive(a: Seq<char>)
    ensures
        !name_lt(a, a),
{
}

proof fn lemma_common_prefix(a: Seq<char>, b: Seq<char>, k: int, j: int)
    requires
        0 <= j <= k,
        k <= a.len(),
        k <= b.len(),
        a.subrange(0, k) == b.subrange(0, k),
    ensures
        a.subrange(0, j) == b.subrange(0, j),
        j < k ==> a[j] == b[j],
{
    assert(a.subrange(0, j) =~= a.subrange(0, k).subrange(0, j));
    assert(b.subrange(0, j) =~= b.subrange(0, k).subrange(0, j));
    if j < k {
        assert(a[j] == a.subrange(0, k)[j]);
        assert(b[j] == b.subrange(0, k)[j]);
    }
}

pub proof fn lemma_lt_asymmetric(a: Seq<char>, b: Seq<char>)
    requires
        name_lt(a, b),
    ensures
        !name_lt(b, a),
        a != b,
{
    let k1 = choose|k: int| lt_at(a, b, k);
    if name_lt(b, a) {
        let k2 = choose|k: int| lt_at(b, a, k);
        if k1 < k2 {
            lemma_common_prefix(b, a, k2, k1);
        } else if k2 < k1 {
            lemma_common_prefix(a, b, k1, k2);
        }
    }
    if a == b {
        lemma_lt_irreflexive(a);
    }
}

pub proof fn lemma_lt_transitive(a: Seq<char>, b: Seq<char>, c: Seq<char>)
    requires
        name_lt(a, b),
        name_lt(b, c),
    ensures
        name_lt(a, c),
{
    let k1 = choose|k: int| lt_at(a, b, k);
    let k2 = choose|k: int| lt_at(b, c, k);
    if k1 < k2 {
        lemma_common_prefix(b, c, k2, k1);
        assert(a.subrange(0, k1) == c.subrange(0, k1));
        assert(lt_at(a, c, k1));
    } else if k2 < k1 {
        lemma_common_prefix(a, b, k1, k2);
        assert(lt_at(a, c, k2));
    } else {
        assert(lt_at(a, c, k1));
    }
}

/// Result of comparing two names.
pub enum NameOrder {
    Less,
    Equal,
    Greater,
}

/// Compares two names in code-point order.
pub fn compare_names(a: &str, b: &str) -> (r: NameOrder)
    ensures
        r is Less <==> name_lt(a@, b@),
        r is Equal <==> a@ == b@,
        r is Greater <==> name_lt(b@, a@),
{
    let x = str_chars(a);
    let y = str_chars(b);
    let mut i: usize = 0;
    while i < x.len() && i < y.len() && x[i] == y[i]
        invariant
            x@ == a@,
            y@ == b@,
            i <= x@.len(),
            i <= y@.len(),
            x@.subrange(0, i as int) == y@.subrange(0, i as int),
        decreases x.len() - i,
    {
        i = i + 1;
        assert(x@.subrange(0, i as int) =~= x@.subrange(0, i - 1).push(x@[i - 1]));
        assert(y@.subrange(0, i as int) =~= y@.subrange(0, i - 1).push(y@[i - 1]));
    }
    if i < x.len() && i < y.len() {
        if x[i] < y[i] {
            assert(lt_at(a@, b@, i as int));
            proof {
                lemma_lt_asymmetric(a@, b@);
            }
            NameOrder::Less
        } else {
            assert(lt_at(b@, a@, i as int));
            proof {
                lemma_lt_asymmetric(b@, a@);
            }
            NameOrder::Greater
        }
    } else if i < y.len() {
        assert(lt_at(a@, b@, i as int));
        proof {
            lemma_lt_asymmetric(a@, b@);
        }
        NameOrder::Less
    } else if i < x.len() {
        assert(lt_at(b@, a@, i as int));
        proof {
            lemma_lt_asymmetric(b@, a@);
        }
        NameOrder::Greater
    } else {
        assert(x@.subrange(0, i as int) =~= x@);
        assert(y@.subrange(0, i as int) =~= y@);
        assert(a@ =~= b@);
        proof {
            lemma_lt_irreflexive(a@);
        }
        NameOrder::Equal
    }
}

/// Names strictly ascending.
pub open spec fn sorted_names<V>(s: Seq<(Seq<char>, V)>) -> bool {
    forall|i: int, j: int| 0 <= i < j < s.len() ==> name_lt(#[trigger] s[i].0, #[trigger] s[j].0)
}

/// The table after setting `k` to `v`: the entry for `k` is replaced, or a new
/// entry is placed before the first larger name.
pub open spec fn sorted_insert<V>(s: Seq<(Seq<char>, V)>, k: Seq<char>, v: V) -> Seq<(Seq<char>, V)>
    decreases s.len(),
{
    if s.len() == 0 {
        seq![(k, v)]
    } else if s[0].0 == k {
        s.update(0, (k, v))
    } else if name_lt(k, s[0].0) {
        seq![(k, v)] + s
    } else {
        seq![s[0]] + sorted_insert(s.drop_first(), k, v)
    }
}

/// The value recorded for `k`, if any.
pub open spec fn lookup<V>(s: Seq<(Seq<char>, V)>, k: Seq<char>) -> Option<V>
    decreases s.len(),
{
    if s.len() == 0 {
        None
    } else if s[0].0 == k {
        Some(s[0].1)
    } else {
        lookup(s.drop_first(), k)
    }
}

/// A table read after a write: the written name gives the written value,
/// every other name what it gave before.
pub proof fn law_lookup_after_insert<V>(s: Seq<(Seq<char>, V)>, k: Seq<char>, v: V, k2: Seq<char>)
    ensures
        lookup(sorted_insert(s, k, v), k) == Some(v),
        k2 != k ==> lookup(sorted_insert(s, k, v), k2) == lookup(s, k2),
    decreases s.len(),
{
    if s.len() == 0 {
        assert(seq![(k, v)].drop_first() =~= s);
    } else if s[0].0 == k {
        assert(s.update(0, (k, v)).drop_first() =~= s.drop_first());
    } else if name_lt(k, s[0].0) {
        assert((seq![(k, v)] + s).drop_first() =~= s);
    } else {
        law_lookup_after_insert(s.drop_first(), k, v, k2);
        assert((seq![s[0]] + sorted_insert(s.drop_first(), k, v)).drop_first() =~= sorted_insert(s.drop_first(), k, v));
    }
}

/// Inserting names in ascending order appends them.
pub proof fn lemma_insert_greatest<V>(s: Seq<(Seq<char>, V)>, k: Seq<char>, v: V)
    requires
        forall|i: int| 0 <= i < s.len() ==> name_lt(#[trigger] s[i].0, k),
    ensures
        sorted_insert(s, k, v) == s.push((k, v)),
    decreases s.len(),
{
    if s.len() > 0 {
        assert(name_lt(s[0].0, k));
        lemma_lt_asymmetric(s[0].0, k);
        assert forall|i: int| 0 <= i < s.drop_first().len() implies name_lt(
            #[trigger] s.drop_first()[i].0,
            k,
        ) by {
            assert(s.drop_first()[i] == s[i + 1]);
        }
        lemma_insert_greatest(s.drop_first(), k, v);
        assert(seq![s[0]] + s.drop_first().push((k, v)) =~= s.push((k, v)));
    }
}

/// Inserting keeps the names sorted and unique.
pub proof fn lemma_insert_sorted<V>(s: Seq<(Seq<char>, V)>, k: Seq<char>, v: V)
    requires
        sorted_names(s),
    ensures
        sorted_names(sorted_insert(s, k, v)),
        forall|i: int|
            0 <= i < sorted_insert(s, k, v).len() ==> #[trigger] sorted_insert(s, k, v)[i].0 == k
                || exists|j: int| 0 <= j < s.len() && s[j].0 == sorted_insert(s, k, v)[i].0,
    decreases s.len(),
{
    let r = sorted_insert(s, k, v);
    if s.len() == 0 {
    } else if s[0].0 == k {
        assert forall|i: int, j: int| 0 <= i < j < r.len() implies name_lt(
            #[trigger] r[i].0,
            #[trigger] r[j].0,
        ) by {
            assert(r[i].0 == s[i].0);
            assert(r[j].0 == s[j].0);
        }
        assert forall|i: int| 0 <= i < r.len() implies #[trigger] r[i].0 == k || exists|j: int|
            0 <= j < s.len() && s[j].0 == r[i].0 by {
            assert(s[i].0 == r[i].0);
        }
    } else if name_lt(k, s[0].0) {
        assert forall|i: int, j: int| 0 <= i < j < r.len() implies name_lt(
            #[trigger] r[i].0,
            #[trigger] r[j].0,
        ) by {
            if i == 0 {
                if j > 1 {
                    lemma_lt_transitive(k, s[0].0, s[j - 1].0);
                }
            } else {
                assert(r[i] == s[i - 1]);
                assert(r[j] == s[j - 1]);
            }
        }
        assert forall|i: int| 0 <= i < r.len() implies #[trigger] r[i].0 == k || exists|j: int|
            0 <= j < s.len() && s[j].0 == r[i].0 by {
            if i > 0 {
                assert(s[i - 1].0 == r[i].0);
            }
        }
    } else {
        let t = s.drop_first();
        assert(sorted_names(t)) by {
            assert forall|i: int, j: int| 0 <= i < j < t.len() implies name_lt(
                #[trigger] t[i].0,
                #[trigger] t[j].0,
            ) by {
                assert(t[i] == s[i + 1]);
                assert(t[j] == s[j + 1]);
            }
        }
        lemma_insert_sorted(t, k, v);
        let rt = sorted_insert(t, k, v);
        assert(r == seq![s[0]] + rt);
        // the head name is below k and below every name of the tail
        assert(name_lt(s[0].0, k)) by {
            lemma_name_total(s[0].0, k);
        }
        assert forall|i: int, j: int| 0 <= i < j < r.len() implies name_lt(
            #[trigger] r[i].0,
            #[trigger] r[j].0,
        ) by {
            if i == 0 {
                assert(r[j] == rt[j - 1]);
                if rt[j - 1].0 != k {
                    let jj = choose|jj: int| 0 <= jj < t.len() && t[jj].0 == rt[j - 1].0;
                    assert(t[jj] == s[jj + 1]);
                }
            } else {
                assert(r[i] == rt[i - 1]);
                assert(r[j] == rt[j - 1]);
            }
        }
        assert forall|i: int| 0 <= i < r.len() implies #[trigger] r[i].0 == k || exists|j: int|
            0 <= j < s.len() && s[j].0 == r[i].0 by {
            if i == 0 {
                assert(s[0].0 == r[0].0);
            } else {
                assert(r[i] == rt[i - 1]);
                if rt[i - 1].0 != k {
                    let jj = choose|jj: int| 0 <= jj < t.len() && t[jj].0 == rt[i - 1].0;
                    assert(t[jj] == s[jj + 1]);
                }
            }
        }
    }
}

/// Any two distinct names are ordered one way or the other.
pub proof fn lemma_name_total(a: Seq<char>, b: Seq<char>)
    requires
        a != b,
    ensures
        name_lt(a, b) || name_lt(b, a),
{
    let n = if a.len() < b.len() {
        a.len() as int
    } else {
        b.len() as int
    };
    if forall|i: int| 0 <= i < n ==> a[i] == b[i] {
        assert(a.subrange(0, n) =~= b.subrange(0, n));
        if a.len() < b.len() {
            assert(lt_at(a, b, n));
        } else if b.len() < a.len() {
            assert(lt_at(b, a, n));
        } else {
            assert(a =~= b);
        }
    } else {
        let k = choose|i: int| 0 <= i < n && a[i] != b[i];
        lemma_first_difference(a, b, n, k);
    }
}

proof fn lemma_first_difference(a: Seq<char>, b: Seq<char>, n: int, k: int)
    requires
        0 <= k < n,
        n <= a.len(),
        n <= b.len(),
        a[k] != b[k],
    ensures
        name_lt(a, b) || name_lt(b, a),
    decreases k,
{
    if forall|i: int| 0 <= i < k ==> a[i] == b[i] {
        assert(a.subrange(0, k) =~= b.subrange(0, k));
        if a[k] < b[k] {
            assert(lt_at(a, b, k));
        } else {
            assert(lt_at(b, a, k));
        }
    } else {
        let j = choose|i: int| 0 <= i < k && a[i] != b[i];
        lemma_first_difference(a, b, n, j);
    }
}

/// A table keyed by name, sorted by name with no name twice.
pub struct NameTable<V: View> {
    entries: Vec<(String, V)>,
}

pub open spec fn entries_view<V: View>(e: Seq<(String, V)>) -> Seq<(Seq<char>, V::V)> {
    e.map_values(|p: (String, V)| (p.0@, p.1@))
}

impl<V: View> View for NameTable<V> {
    type V = Seq<(Seq<char>, V::V)>;

    closed spec fn view(&self) -> Seq<(Seq<char>, V::V)> {
        entries_view(self.entries@)
    }
}

impl<V: View> NameTable<V> {
    #[verifier::type_invariant]
    spec fn inv(self) -> bool {
        sorted_names(entries_view(self.entries@))
    }

    /// An empty table.
    pub fn new() -> (t: Self)
        ensures
            t@ == Seq::<(Seq<char>, V::V)>::empty(),
    {
        let t = NameTable { entries: Vec::new() };
        assert(entries_view(t.entries@) =~= Seq::<(Seq<char>, V::V)>::empty());
        t
    }

    /// Number of entries; the entries are sorted by name, each name once.
    pub fn len(&self) -> (n: usize)
        ensures
            n == self@.len(),
            sorted_names(self@),
    {
        proof {
            use_type_invariant(self);
        }
        self.entries.len()
    }

    /// The `i`-th entry in name order.
    pub fn entry(&self, i: usize) -> (e: (&String, &V))
        requires
            i < self@.len(),
        ensures
            e.0@ == self@[i as int].0,
            e.1@ == self@[i as int].1,
    {
        let p = &self.entries[i];
        (&p.0, &p.1)
    }

    /// Sets the value for `key`, replacing any earlier value for it.
    pub fn insert(&mut self, key: String, value: V)
        ensures
            final(self)@ == sorted_insert(old(self)@, key@, value@),
    {
        proof {
            use_type_invariant(&*self);
        }
        let ghost k = key@;
        let ghost v = value@;
        let ghost s = self@;
        let mut out: Vec<(String, V)> = Vec::new();
        let mut old_entries: Vec<(String, V)> = Vec::new();
        std::mem::swap(&mut old_entries, &mut self.entries);
        let n = old_entries.len();
        let mut rest: Vec<(String, V)> = Vec::new();
        // move entries out back-to-front so they can be taken by value
        while old_entries.len() > 0
            invariant
                entries_view(old_entries@) + entries_view(rest@).reverse() == s,
            decreases old_entries.len(),
        {
            let e = old_entries.pop().unwrap();
            proof {
                let ov = entries_view(old_entries@);
                assert(entries_view(old_entries@.push(e)) =~= ov.push((e.0@, e.1@)));
                assert(entries_view(rest@.push(e)).reverse() =~= seq![(e.0@, e.1@)]
                    + entries_view(rest@).reverse());
            }
            rest.push(e);
        }
        assert(entries_view(rest@).reverse() =~= s);
        let mut key_opt: Option<String> = Some(key);
        let mut value_opt: Option<V> = Some(value);
        while rest.len() > 0
            invariant
                entries_view(out@) + (if key_opt is Some {
                    sorted_insert(entries_view(rest@).reverse(), k, v)
                } else {
                    entries_view(rest@).reverse()
                }) == sorted_insert(s, k, v),
                key_opt is Some <==> value_opt is Some,
                key_opt matches Some(kk) ==> kk@ == k,
                value_opt matches Some(vv) ==> vv@ == v,
            decreases rest.len(),
        {
            let ghost before = rest@;
            let e = rest.pop().unwrap();
            assert(before =~= rest@.push(e));
            let ghost tail = entries_view(rest@).reverse();
            assert(entries_view(rest@.push(e)).reverse() =~= seq![(e.0@, e.1@)] + tail);
            let ghost cur = seq![(e.0@, e.1@)] + tail;
            assert(cur[0] == (e.0@, e.1@));
            assert(cur.drop_first() =~= tail);
            if key_opt.is_some() {
                let kk = key_opt.take().unwrap();
                let vv = value_opt.take().unwrap();
                match compare_names(kk.as_str(), e.0.as_str()) {
                    NameOrder::Equal => {
                        // replace e by the new entry
                        assert(sorted_insert(cur, k, v) =~= seq![(k, v)] + tail);
                        out.push((kk, vv));
                        assert(entries_view(out@) =~= entries_view(out@.drop_last()).push((k, v)));
                    },
                    NameOrder::Less => {
                        assert(sorted_insert(cur, k, v) =~= seq![(k, v)] + cur);
                        out.push((kk, vv));
                        assert(entries_view(out@) =~= entries_view(out@.drop_last()).push((k, v)));
                        let ghost e_view = (e.0@, e.1@);
                        out.push(e);
                        assert(entries_view(out@) =~= entries_view(out@.drop_last()).push(e_view));
                    },
                    NameOrder::Greater => {
                        proof {
                            lemma_lt_asymmetric(e.0@, k);
                        }
                        assert(sorted_insert(cur, k, v) =~= seq![(e.0@, e.1@)] + sorted_insert(
                            tail,
                            k,
                            v,
                        ));
                        let ghost e_view = (e.0@, e.1@);
                        out.push(e);
                        assert(entries_view(out@) =~= entries_view(out@.drop_last()).push(e_view));
                        key_opt = Some(kk);
                        value_opt = Some(vv);
                    },
                }
            } else {
                let ghost e_view = (e.0@, e.1@);
                out.push(e);
                assert(entries_view(out@) =~= entries_view(out@.drop_last()).push(e_view));
            }
        }
        assert(entries_view(rest@).reverse() =~= Seq::<(Seq<char>, V::V)>::empty());
        if key_opt.is_some() {
            let kk = key_opt.take().unwrap();
            let vv = value_opt.take().unwrap();
            out.push((kk, vv));
            assert(entries_view(out@) =~= entries_view(out@.drop_last()).push((k, v)));
        }
        proof {
            lemma_insert_sorted(s, k, v);
        }
        assert(entries_view(out@) =~= sorted_insert(s, k, v));
        self.entries = out;
    }

    /// The value recorded for `key`, if any.
    pub fn get(&self, key: &str) -> (r: Option<&V>)
        ensures
            match (r, lookup(self@, key@)) {
                (Some(x), Some(y)) => x@ == y,
                (None, None) => true,
                _ => false,
            },
    {
        let mut i: usize = 0;
        assert(self@.subrange(0, self@.len() as int) =~= self@);
        while i < self.entries.len()
            invariant
                i <= self@.len(),
                lookup(self@, key@) == lookup(self@.subrange(i as int, self@.len() as int), key@),
            decreases self.entries.len() - i,
        {
            let ghost rest = self@.subrange(i as int, self@.len() as int);
            assert(rest.drop_first() =~= self@.subrange(i + 1, self@.len() as int));
            assert(rest[0] == self@[i as int]);
            if crate::text::str_eq(self.entries[i].0.as_str(), key) {
                return Some(&self.entries[i].1);
            }
            i = i + 1;
        }
        None
    }
}

} // verus!
