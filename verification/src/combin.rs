//! The list built-ins of the language that work on positions: all
//! r-combinations of a list and the rows of a Cartesian product, each in
//! lexicographic order of the positions chosen.

use vstd::prelude::*;

verus! {

// ── Positions ────────────────────────────────────────────────────────────────

/// `c` picks positions of a list of length `n`, strictly ascending.
pub open spec fn ascending(c: Seq<int>, n: int) -> bool {
    &&& forall|i: int, j: int| 0 <= i < j < c.len() ==> c[i] < c[j]
    &&& forall|i: int| 0 <= i < c.len() ==> 0 <= #[trigger] c[i] < n
}

/// `a` and `b` agree before `k` and `a` is smaller at `k`.
pub open spec fn lex_at(a: Seq<int>, b: Seq<int>, k: int) -> bool {
    &&& 0 <= k < a.len()
    &&& k < b.len()
    &&& forall|j: int| 0 <= j < k ==> a[j] == b[j]
    &&& a[k] < b[k]
}

/// `a` comes before `b` in lexicographic order (for sequences of one length).
pub open spec fn lex_lt(a: Seq<int>, b: Seq<int>) -> bool {
    exists|k: int| #[trigger] lex_at(a, b, k)
}

/// The positions as integers.
pub open spec fn pos_view(v: Seq<usize>) -> Seq<int> {
    v.map_values(|x: usize| x as int)
}

/// The combinations as sequences of integers.
pub open spec fn combs_view(v: Seq<Vec<usize>>) -> Seq<Seq<int>> {
    v.map_values(|c: Vec<usize>| pos_view(c@))
}

pub proof fn lemma_lex_irreflexive(a: Seq<int>)
    ensures
        !lex_lt(a, a),
{
}

pub proof fn lemma_lex_asymmetric(a: Seq<int>, b: Seq<int>)
    requires
        lex_lt(a, b),
    ensures
        !lex_lt(b, a),
        a != b,
{
    let k1 = choose|k: int| lex_at(a, b, k);
    if lex_lt(b, a) {
        let k2 = choose|k: int| lex_at(b, a, k);
        if k1 < k2 {
            assert(b[k1] == a[k1]);
        } else if k2 < k1 {
            assert(a[k2] == b[k2]);
        }
    }
}

pub proof fn lemma_lex_transitive(a: Seq<int>, b: Seq<int>, c: Seq<int>)
    requires
        lex_lt(a, b),
        lex_lt(b, c),
    ensures
        lex_lt(a, c),
{
    let k1 = choose|k: int| lex_at(a, b, k);
    let k2 = choose|k: int| lex_at(b, c, k);
    if k1 <= k2 {
        assert(lex_at(a, c, k1));
    } else {
        assert(lex_at(a, c, k2));
    }
}

/// The first position from `k` on where `a` and `b` differ (or the length).
pub open spec fn first_diff(a: Seq<int>, b: Seq<int>, k: int) -> int
    decreases a.len() - k,
{
    if k < 0 || k >= a.len() || a[k] != b[k] {
        k
    } else {
        first_diff(a, b, k + 1)
    }
}

pub proof fn lemma_first_diff(a: Seq<int>, b: Seq<int>, k: int)
    requires
        0 <= k <= a.len() == b.len(),
        forall|j: int| 0 <= j < k ==> a[j] == b[j],
    ensures
        k <= first_diff(a, b, k) <= a.len(),
        forall|j: int| 0 <= j < first_diff(a, b, k) ==> a[j] == b[j],
        first_diff(a, b, k) < a.len() ==> a[first_diff(a, b, k)] != b[first_diff(a, b, k)],
    decreases a.len() - k,
{
    if k < a.len() && a[k] == b[k] {
        lemma_first_diff(a, b, k + 1);
    }
}

/// Two different sequences of one length are ordered one way or the other.
pub proof fn lemma_lex_total(a: Seq<int>, b: Seq<int>)
    requires
        a.len() == b.len(),
        a != b,
    ensures
        lex_lt(a, b) || lex_lt(b, a),
{
    lemma_first_diff(a, b, 0);
    let k = first_diff(a, b, 0);
    if k >= a.len() {
        assert(a =~= b);
    }
    if a[k] < b[k] {
        assert(lex_at(a, b, k));
    } else {
        assert(lex_at(b, a, k));
    }
}

/// An ascending choice of `r` positions out of `n` has `j <= c[j] <= j + n - r`.
pub proof fn lemma_ascending_bounds(c: Seq<int>, n: int)
    requires
        ascending(c, n),
    ensures
        forall|j: int| 0 <= j < c.len() ==> j <= #[trigger] c[j] && c[j] <= j + n - c.len(),
{
    assert forall|j: int| 0 <= j < c.len() implies j <= #[trigger] c[j] && c[j] <= j + n - c.len() by {
        lemma_ascending_low(c, n, j);
        lemma_ascending_high(c, n, j);
    }
}

proof fn lemma_ascending_low(c: Seq<int>, n: int, j: int)
    requires
        ascending(c, n),
        0 <= j < c.len(),
    ensures
        j <= c[j],
    decreases j,
{
    if j > 0 {
        lemma_ascending_low(c, n, j - 1);
    }
}

proof fn lemma_ascending_high(c: Seq<int>, n: int, j: int)
    requires
        ascending(c, n),
        0 <= j < c.len(),
    ensures
        c[j] <= j + n - c.len(),
    decreases c.len() - j,
{
    if j + 1 < c.len() {
        lemma_ascending_high(c, n, j + 1);
    }
}

/// In an ascending sequence the values grow at least as fast as the positions.
proof fn lemma_ascending_gap(c: Seq<int>, n: int, k: int, j: int)
    requires
        ascending(c, n),
        0 <= k <= j < c.len(),
    ensures
        c[j] >= c[k] + (j - k),
    decreases j - k,
{
    if k < j {
        lemma_ascending_gap(c, n, k, j - 1);
    }
}

/// The greatest choice: every position at its largest.
pub open spec fn at_top(c: Seq<int>, n: int, from: int) -> bool {
    forall|j: int| from <= j < c.len() ==> #[trigger] c[j] == j + n - c.len()
}

/// The next choice after `idx`, moving up position `i`: `idx[i] + 1`, then
/// consecutive values after it.
pub open spec fn advance(idx: Seq<int>, i: int) -> Seq<int> {
    Seq::new(idx.len(), |j: int| if j < i { idx[j] } else { idx[i] + 1 + (j - i) })
}

/// Moving up the last position that is not at its largest gives the very
/// next ascending choice: nothing ascending lies strictly between.
pub proof fn lemma_advance_next(idx: Seq<int>, i: int, n: int, c: Seq<int>)
    requires
        ascending(idx, n),
        ascending(c, n),
        c.len() == idx.len(),
        0 <= i < idx.len(),
        idx[i] < i + n - idx.len(),
        at_top(idx, n, i + 1),
        lex_lt(idx, c),
    ensures
        advance(idx, i) == c || lex_lt(advance(idx, i), c),
{
    let s = advance(idx, i);
    let r = idx.len() as int;
    let k = choose|k: int| lex_at(idx, c, k);
    lemma_ascending_bounds(c, n);
    assert(c[k] <= k + n - r);
    if k > i {
        assert(idx[k] == k + n - r);
        assert(false);
    }
    if k < i {
        assert(lex_at(s, c, k));
    } else {
        assert(s[k] == idx[k] + 1);
        if s[k] < c[k] {
            assert(lex_at(s, c, k));
        } else {
            assert forall|j: int| 0 <= j <= k implies s[j] == c[j] by {}
            assert forall|j: int| k < j < r implies s[j] <= #[trigger] c[j] by {
                lemma_ascending_gap(c, n, k, j);
            }
            lemma_first_diff(s, c, k + 1);
            let d = first_diff(s, c, k + 1);
            if d < r {
                assert(s[d] < c[d]);
                assert(lex_at(s, c, d));
            } else {
                assert(s =~= c);
            }
        }
    }
}

/// The smallest ascending choice: `0, 1, 2, ...`.
pub proof fn lemma_first_is_least(c: Seq<int>, n: int, r: int)
    requires
        ascending(c, n),
        c.len() == r,
    ensures
        !lex_lt(c, Seq::new(r as nat, |j: int| j)),
{
    lemma_ascending_bounds(c, n);
    let first = Seq::new(r as nat, |j: int| j);
    if lex_lt(c, first) {
        let k = choose|k: int| #[trigger] lex_at(c, first, k);
        assert(c[k] >= k);
    }
}

/// When every position is at its largest, every other ascending choice comes
/// before it.
pub proof fn lemma_top_is_greatest(idx: Seq<int>, c: Seq<int>, n: int)
    requires
        ascending(c, n),
        c.len() == idx.len(),
        at_top(idx, n, 0),
        c != idx,
    ensures
        lex_lt(c, idx),
{
    lemma_ascending_bounds(c, n);
    lemma_first_diff(c, idx, 0);
    let d = first_diff(c, idx, 0);
    if d >= c.len() {
        assert(c =~= idx);
    }
    assert(c[d] <= d + n - c.len());
    assert(lex_at(c, idx, d));
}

// ── A measure that grows in lexicographic order ──────────────────────────────

pub open spec fn pw(b: int, e: nat) -> int
    decreases e,
{
    if e == 0 {
        1
    } else {
        b * pw(b, (e - 1) as nat)
    }
}

/// The sequence read as a number in base `b`, first position most significant.
pub open spec fn digits(s: Seq<int>, b: int) -> int
    decreases s.len(),
{
    if s.len() == 0 {
        0
    } else {
        digits(s.drop_last(), b) * b + s.last()
    }
}

pub open spec fn below(s: Seq<int>, b: int) -> bool {
    forall|j: int| 0 <= j < s.len() ==> 0 <= #[trigger] s[j] < b
}

proof fn lemma_digits_bound(s: Seq<int>, b: int)
    requires
        b >= 1,
        below(s, b),
    ensures
        0 <= digits(s, b) < pw(b, s.len()),
    decreases s.len(),
{
    if s.len() > 0 {
        let t = s.drop_last();
        assert(below(t, b)) by {
            assert forall|j: int| 0 <= j < t.len() implies 0 <= #[trigger] t[j] < b by {
                assert(t[j] == s[j]);
            }
        }
        lemma_digits_bound(t, b);
        let x = digits(t, b);
        let p = pw(b, t.len());
        assert(pw(b, s.len()) == b * p);
        assert(0 <= x * b + s.last() < b * p) by (nonlinear_arith)
            requires
                0 <= x < p,
                0 <= s.last() < b,
                b >= 1,
        ;
    }
}

proof fn lemma_digits_lex(a: Seq<int>, c: Seq<int>, b: int)
    requires
        b >= 1,
        a.len() == c.len(),
        below(a, b),
        below(c, b),
        lex_lt(a, c),
    ensures
        digits(a, b) < digits(c, b),
    decreases a.len(),
{
    let k = choose|k: int| lex_at(a, c, k);
    let n = a.len() as int;
    let a1 = a.drop_last();
    let c1 = c.drop_last();
    assert(below(a1, b)) by {
        assert forall|j: int| 0 <= j < a1.len() implies 0 <= #[trigger] a1[j] < b by {
            assert(a1[j] == a[j]);
        }
    }
    assert(below(c1, b)) by {
        assert forall|j: int| 0 <= j < c1.len() implies 0 <= #[trigger] c1[j] < b by {
            assert(c1[j] == c[j]);
        }
    }
    if k == n - 1 {
        assert(a1 =~= c1);
        assert(a.last() < c.last());
    } else {
        assert(lex_at(a1, c1, k));
        lemma_digits_lex(a1, c1, b);
        let x = digits(a1, b);
        let y = digits(c1, b);
        lemma_digits_bound(c1, b);
        assert(x * b + a.last() < y * b + c.last()) by (nonlinear_arith)
            requires
                x < y,
                0 <= a.last() < b,
                0 <= c.last(),
                b >= 1,
        ;
    }
}

/// Moving up a position that is below its largest keeps the choice ascending,
/// and the result comes right after in lexicographic order.
proof fn lemma_advance(idx: Seq<int>, i: int, n: int)
    requires
        ascending(idx, n),
        0 <= i < idx.len(),
        idx[i] < i + n - idx.len(),
    ensures
        ascending(advance(idx, i), n),
        lex_at(idx, advance(idx, i), i),
        below(idx, n + 1),
        below(advance(idx, i), n + 1),
{
    let s = advance(idx, i);
    let r = idx.len() as int;
    lemma_ascending_bounds(idx, n);
    assert forall|a: int, b: int| 0 <= a < b < s.len() implies s[a] < s[b] by {
        if b < i {
        } else if a < i {
            assert(idx[a] < idx[i]);
        }
    }
    assert forall|j: int| 0 <= j < s.len() implies 0 <= #[trigger] s[j] < n by {
        if j >= i {
            assert(s[j] == idx[i] + 1 + (j - i));
        }
    }
}

fn copy_positions(v: &Vec<usize>) -> (r: Vec<usize>)
    ensures
        r@ == v@,
{
    let mut r: Vec<usize> = Vec::new();
    let mut k: usize = 0;
    while k < v.len()
        invariant
            k <= v@.len(),
            r@ == v@.subrange(0, k as int),
        decreases v@.len() - k,
    {
        r.push(v[k]);
        k = k + 1;
        assert(r@ =~= v@.subrange(0, k as int));
    }
    assert(r@ =~= v@);
    r
}

/// सर्व_संयोजन: the positions of every `r`-combination of a list of length
/// `n`: each ascending choice of `r` positions exactly once, in lexicographic
/// order (none when `r > n`; the one empty choice when `r` is 0).
pub fn combinations(n: usize, r: usize) -> (out: Vec<Vec<usize>>)
    ensures
        forall|m: int| 0 <= m < out@.len() ==> (#[trigger] combs_view(out@)[m]).len() == r
            && ascending(combs_view(out@)[m], n as int),
        forall|m1: int, m2: int| 0 <= m1 < m2 < out@.len() ==> lex_lt(
            #[trigger] combs_view(out@)[m1],
            #[trigger] combs_view(out@)[m2],
        ),
        forall|c: Seq<int>| c.len() == r && ascending(c, n as int) ==> exists|m: int| 0 <= m < out@.len()
            && #[trigger] combs_view(out@)[m] == c,
{
    let mut out: Vec<Vec<usize>> = Vec::new();
    if r > n {
        proof {
            assert forall|c: Seq<int>| c.len() == r && ascending(c, n as int) implies exists|m: int| 0 <= m < out@.len()
                && #[trigger] combs_view(out@)[m] == c by {
                lemma_ascending_bounds(c, n as int);
                assert(c[r - 1] <= n - 1 && c[r - 1] >= r - 1);
            }
        }
        return out;
    }
    if r == 0 {
        out.push(Vec::new());
        proof {
            assert(combs_view(out@)[0] =~= Seq::<int>::empty());
            assert forall|c: Seq<int>| c.len() == r && ascending(c, n as int) implies exists|m: int| 0 <= m < out@.len()
                && #[trigger] combs_view(out@)[m] == c by {
                assert(c =~= combs_view(out@)[0]);
            }
        }
        return out;
    }
    let mut idx: Vec<usize> = Vec::new();
    let mut k: usize = 0;
    while k < r
        invariant
            k <= r <= n,
            idx@.len() == k,
            forall|j: int| 0 <= j < k ==> idx@[j] == j,
        decreases r - k,
    {
        idx.push(k);
        k = k + 1;
    }
    proof {
        let first = Seq::new(r as nat, |j: int| j);
        assert(pos_view(idx@) =~= first);
        assert forall|c: Seq<int>| c.len() == r && ascending(c, n as int) implies !lex_lt(c, pos_view(idx@)) by {
            lemma_first_is_least(c, n as int, r as int);
        }
    }
    loop
        invariant
            0 < r <= n,
            idx@.len() == r,
            ascending(pos_view(idx@), n as int),
            forall|m: int| 0 <= m < out@.len() ==> (#[trigger] combs_view(out@)[m]).len() == r
                && ascending(combs_view(out@)[m], n as int) && lex_lt(combs_view(out@)[m], pos_view(idx@)),
            forall|m1: int, m2: int| 0 <= m1 < m2 < out@.len() ==> lex_lt(
                #[trigger] combs_view(out@)[m1],
                #[trigger] combs_view(out@)[m2],
            ),
            forall|c: Seq<int>| c.len() == r && ascending(c, n as int) && lex_lt(c, pos_view(idx@)) ==> exists|m: int|
                0 <= m < out@.len() && #[trigger] combs_view(out@)[m] == c,
        decreases pw(n + 1, r as nat) - digits(pos_view(idx@), n + 1),
    {
        let ghost cur = pos_view(idx@);
        let ghost before = out@;
        let copy = copy_positions(&idx);
        out.push(copy);
        proof {
            assert(combs_view(out@) =~= combs_view(before).push(cur));
        }
        let mut i: usize = r;
        let mut found = false;
        while i > 0 && !found
            invariant
                i <= r <= n,
                0 < r,
                idx@.len() == r,
                cur == pos_view(idx@),
                ascending(cur, n as int),
                !found ==> at_top(cur, n as int, i as int),
                found ==> i < r && cur[i as int] < i + n - r && at_top(cur, n as int, i + 1),
            decreases i,
        {
            i = i - 1;
            if idx[i] != i + (n - r) {
                found = true;
                proof {
                    lemma_ascending_bounds(cur, n as int);
                    assert(cur[i as int] == idx@[i as int]);
                }
            } else {
                assert(cur[i as int] == idx@[i as int]);
            }
        }
        if !found {
            proof {
                assert forall|c: Seq<int>| c.len() == r && ascending(c, n as int) implies exists|m: int| 0 <= m < out@.len()
                    && #[trigger] combs_view(out@)[m] == c by {
                    if c != cur {
                        lemma_top_is_greatest(cur, c, n as int);
                        let m = choose|m: int| 0 <= m < before.len() && #[trigger] combs_view(before)[m] == c;
                        assert(combs_view(out@)[m] == c);
                    } else {
                        assert(combs_view(out@)[before.len() as int] == c);
                    }
                }
                assert forall|m1: int, m2: int| 0 <= m1 < m2 < out@.len() implies lex_lt(
                    #[trigger] combs_view(out@)[m1],
                    #[trigger] combs_view(out@)[m2],
                ) by {
                    if m2 < before.len() {
                        assert(combs_view(out@)[m1] == combs_view(before)[m1]);
                        assert(combs_view(out@)[m2] == combs_view(before)[m2]);
                    } else {
                        assert(combs_view(out@)[m1] == combs_view(before)[m1]);
                    }
                }
            }
            return out;
        }
        let ghost next = advance(cur, i as int);
        proof {
            lemma_advance(cur, i as int, n as int);
        }
        idx.set(i, idx[i] + 1);
        let mut j = i + 1;
        while j < r
            invariant
                i < j <= r <= n,
                idx@.len() == r,
                next == advance(cur, i as int),
                next.len() == r,
                ascending(next, n as int),
                forall|t: int| 0 <= t < j ==> #[trigger] idx@[t] == next[t],
            decreases r - j,
        {
            assert(next[j - 1] + 1 == next[j as int]);
            idx.set(j, idx[j - 1] + 1);
            j = j + 1;
        }
        proof {
            assert(pos_view(idx@) =~= next);
            assert(lex_lt(cur, next));
            lemma_digits_lex(cur, next, n + 1);
            lemma_digits_bound(next, n + 1);
            assert forall|m: int| 0 <= m < out@.len() implies (#[trigger] combs_view(out@)[m]).len() == r
                && ascending(combs_view(out@)[m], n as int) && lex_lt(combs_view(out@)[m], next) by {
                if m < before.len() {
                    assert(combs_view(out@)[m] == combs_view(before)[m]);
                    lemma_lex_transitive(combs_view(out@)[m], cur, next);
                }
            }
            assert forall|m1: int, m2: int| 0 <= m1 < m2 < out@.len() implies lex_lt(
                #[trigger] combs_view(out@)[m1],
                #[trigger] combs_view(out@)[m2],
            ) by {
                assert(combs_view(out@)[m1] == combs_view(before)[m1]);
                if m2 < before.len() {
                    assert(combs_view(out@)[m2] == combs_view(before)[m2]);
                }
            }
            assert forall|c: Seq<int>| c.len() == r && ascending(c, n as int) && lex_lt(c, next) implies exists|m: int|
                0 <= m < out@.len() && #[trigger] combs_view(out@)[m] == c by {
                if c == cur {
                    assert(combs_view(out@)[before.len() as int] == c);
                } else if lex_lt(c, cur) {
                    let m = choose|m: int| 0 <= m < before.len() && #[trigger] combs_view(before)[m] == c;
                    assert(combs_view(out@)[m] == c);
                } else {
                    lemma_lex_total(c, cur);
                    lemma_advance_next(cur, i as int, n as int, c);
                    if next == c {
                        lemma_lex_irreflexive(c);
                    } else {
                        lemma_lex_asymmetric(c, next);
                    }
                }
            }
        }
    }
}


// ── Cartesian products ───────────────────────────────────────────────────────

/// `t` picks one position in each of lists of lengths `lens`.
pub open spec fn picks(t: Seq<int>, lens: Seq<int>) -> bool {
    &&& t.len() == lens.len()
    &&& forall|j: int| 0 <= j < t.len() ==> 0 <= #[trigger] t[j] < lens[j]
}

/// `out` holds every pick over `lens` once, in lexicographic order.
pub open spec fn all_picks(out: Seq<Seq<int>>, lens: Seq<int>) -> bool {
    &&& forall|m: int| 0 <= m < out.len() ==> picks(#[trigger] out[m], lens)
    &&& forall|m1: int, m2: int| 0 <= m1 < m2 < out.len() ==> lex_lt(#[trigger] out[m1], #[trigger] out[m2])
    &&& forall|t: Seq<int>| picks(t, lens) ==> exists|m: int| 0 <= m < out.len() && #[trigger] out[m] == t
}

proof fn lemma_push_lex(a: Seq<int>, b: Seq<int>, x: int, y: int)
    requires
        a.len() == b.len(),
        lex_lt(a, b),
    ensures
        lex_lt(a.push(x), b.push(y)),
{
    let k = choose|k: int| lex_at(a, b, k);
    assert(lex_at(a.push(x), b.push(y), k));
}

/// Some row of `out` is `r`.
pub open spec fn has_row(out: Seq<Seq<int>>, r: Seq<int>) -> bool {
    exists|m: int| 0 <= m < out.len() && #[trigger] out[m] == r
}

/// Copies `v` and adds `x` at its end.
fn push_copy(v: &Vec<usize>, x: usize) -> (r: Vec<usize>)
    ensures
        r@ == v@.push(x),
{
    let mut r = copy_positions(v);
    r.push(x);
    r
}

/// A row of the product so far: `next[m]` extends some row of `acc` that is
/// not after `acc[p]`, and comes before `acc[p].push(x)`.
spec fn row_before(row: Seq<int>, acc: Seq<Seq<int>>, k: int, p: int, x: int) -> bool {
    &&& row.len() == k + 1
    &&& (row.take(k) == acc[p] || lex_lt(row.take(k), acc[p]))
    &&& lex_lt(row, acc[p].push(x))
}

/// कार्तीय: the positions of every row of the Cartesian product of lists of
/// lengths `lens`: one position in each list, every such row once, in
/// lexicographic order (the first list varying slowest).
#[verifier::rlimit(40)]
pub fn product(lens: &Vec<usize>) -> (out: Vec<Vec<usize>>)
    ensures
        all_picks(combs_view(out@), pos_view(lens@)),
{
    let mut acc: Vec<Vec<usize>> = Vec::new();
    acc.push(Vec::new());
    proof {
        let a = combs_view(acc@);
        assert(a[0] =~= Seq::<int>::empty());
        assert(pos_view(lens@).take(0) =~= Seq::<int>::empty());
        assert forall|t: Seq<int>| picks(t, pos_view(lens@).take(0)) implies exists|m: int| 0 <= m < a.len() && #[trigger] a[m] == t by {
            assert(t =~= a[0]);
        }
    }
    let mut k: usize = 0;
    while k < lens.len()
        invariant
            k <= lens@.len(),
            all_picks(combs_view(acc@), pos_view(lens@).take(k as int)),
        decreases lens@.len() - k,
    {
        let len = lens[k];
        let ghost a = combs_view(acc@);
        let ghost lk = pos_view(lens@).take(k as int);
        let ghost l2 = pos_view(lens@).take(k + 1);
        assert(l2 =~= lk.push(len as int));
        let mut next: Vec<Vec<usize>> = Vec::new();
        let mut p: usize = 0;
        while p < acc.len()
            invariant
                p <= acc@.len(),
                a == combs_view(acc@),
                all_picks(a, lk),
                lk.len() == k,
                l2 == lk.push(len as int),
                forall|m: int| 0 <= m < next@.len() ==> picks(#[trigger] combs_view(next@)[m], l2),
                forall|m1: int, m2: int| 0 <= m1 < m2 < next@.len() ==> lex_lt(
                    #[trigger] combs_view(next@)[m1],
                    #[trigger] combs_view(next@)[m2],
                ),
                p < acc@.len() ==> forall|m: int| 0 <= m < next@.len() ==> row_before(#[trigger] combs_view(next@)[m], a, k as int, p as int, 0),
                forall|q: int, y: int| 0 <= q < p && 0 <= y < len ==> #[trigger] has_row(combs_view(next@), a[q].push(y)),
            decreases acc@.len() - p,
        {
            let mut x: usize = 0;
            while x < len
                invariant
                    p < acc@.len(),
                    x <= len,
                    a == combs_view(acc@),
                    all_picks(a, lk),
                    lk.len() == k,
                    l2 == lk.push(len as int),
                    forall|m: int| 0 <= m < next@.len() ==> picks(#[trigger] combs_view(next@)[m], l2),
                    forall|m1: int, m2: int| 0 <= m1 < m2 < next@.len() ==> lex_lt(
                        #[trigger] combs_view(next@)[m1],
                        #[trigger] combs_view(next@)[m2],
                    ),
                    forall|m: int| 0 <= m < next@.len() ==> row_before(#[trigger] combs_view(next@)[m], a, k as int, p as int, x as int),
                    forall|q: int, y: int| 0 <= q < p && 0 <= y < len ==> #[trigger] has_row(combs_view(next@), a[q].push(y)),
                    forall|y: int| 0 <= y < x ==> #[trigger] has_row(combs_view(next@), a[p as int].push(y)),
                decreases len - x,
            {
                let row = push_copy(&acc[p], x);
                let ghost before = combs_view(next@);
                let ghost r = a[p as int].push(x as int);
                next.push(row);
                proof {
                    assert(a[p as int] == pos_view(acc@[p as int]@));
                    assert(pos_view(row@) =~= r);
                    let nv = combs_view(next@);
                    assert(nv =~= before.push(r));
                    assert(picks(a[p as int], lk));
                    assert(picks(r, l2)) by {
                        assert forall|j: int| 0 <= j < r.len() implies 0 <= #[trigger] r[j] < l2[j] by {
                            if j < k {
                                assert(r[j] == a[p as int][j]);
                            }
                        }
                    }
                    assert(r.take(k as int) =~= a[p as int]);
                    assert forall|m: int| 0 <= m < nv.len() implies row_before(#[trigger] nv[m], a, k as int, p as int, x + 1) by {
                        assert(lex_at(r, a[p as int].push(x + 1), k as int));
                        if m < before.len() {
                            assert(nv[m] == before[m]);
                            lemma_lex_transitive(nv[m], r, a[p as int].push(x + 1));
                        }
                    }
                    assert forall|m1: int, m2: int| 0 <= m1 < m2 < nv.len() implies lex_lt(
                        #[trigger] nv[m1],
                        #[trigger] nv[m2],
                    ) by {
                        assert(nv[m1] == before[m1]);
                        if m2 < before.len() {
                            assert(nv[m2] == before[m2]);
                        }
                    }
                    assert forall|q: int, y: int| 0 <= q < p && 0 <= y < len implies #[trigger] has_row(nv, a[q].push(y)) by {
                        assert(has_row(before, a[q].push(y)));
                        let m = choose|m: int| 0 <= m < before.len() && #[trigger] before[m] == a[q].push(y);
                        assert(nv[m] == before[m]);
                    }
                    assert forall|y: int| 0 <= y < x + 1 implies #[trigger] has_row(nv, a[p as int].push(y)) by {
                        if y < x {
                            assert(has_row(before, a[p as int].push(y)));
                            let m = choose|m: int| 0 <= m < before.len() && #[trigger] before[m] == a[p as int].push(y);
                            assert(nv[m] == before[m]);
                        } else {
                            assert(nv[before.len() as int] == r);
                        }
                    }
                }
                x = x + 1;
            }
            proof {
                let nv = combs_view(next@);
                assert forall|q: int, y: int| 0 <= q < p + 1 && 0 <= y < len implies #[trigger] has_row(nv, a[q].push(y)) by {
                    if q == p {
                        assert(0 <= y < x);
                    }
                }
                if p + 1 < acc@.len() {
                    assert(lex_lt(a[p as int], a[p + 1]));
                    assert forall|m: int| 0 <= m < nv.len() implies row_before(#[trigger] nv[m], a, k as int, p + 1, 0) by {
                        assert(row_before(nv[m], a, k as int, p as int, x as int));
                        let t = nv[m].take(k as int);
                        if t != a[p as int] {
                            lemma_lex_transitive(t, a[p as int], a[p + 1]);
                        }
                        assert(lex_lt(t, a[p + 1]));
                        assert(t.len() == a[p + 1].len());
                        lemma_push_lex(t, a[p + 1], nv[m][k as int], 0);
                        assert(t.push(nv[m][k as int]) =~= nv[m]);
                        assert(a[p + 1].take(k as int) =~= a[p + 1]);
                    }
                }
            }
            p = p + 1;
        }
        proof {
            let nv = combs_view(next@);
            assert forall|t: Seq<int>| picks(t, l2) implies exists|m: int| 0 <= m < nv.len() && #[trigger] nv[m] == t by {
                let t0 = t.drop_last();
                assert(picks(t0, lk)) by {
                    assert forall|j: int| 0 <= j < t0.len() implies 0 <= #[trigger] t0[j] < lk[j] by {
                        assert(t0[j] == t[j]);
                        assert(l2[j] == lk[j]);
                    }
                }
                let q = choose|q: int| 0 <= q < a.len() && #[trigger] a[q] == t0;
                assert(t =~= a[q].push(t.last()));
                assert(t.last() == t[t.len() - 1]);
                assert(0 <= t.last() < len);
                assert(has_row(nv, a[q].push(t.last())));
            }
        }
        acc = next;
        k = k + 1;
    }
    assert(pos_view(lens@).take(lens@.len() as int) =~= pos_view(lens@));
    acc
}

} // verus!
