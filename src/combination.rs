//! The mathematical model of combination index vectors and their lexicographic
//! successor, together with the laws the enumeration obeys.
use vstd::prelude::*;

verus! {

/// `v` names a valid selection of `v.len()` positions out of `n`: every value
/// lies in `[0, n)` and the values increase strictly from left to right.
pub open spec fn is_selection(v: Seq<int>, n: int) -> bool {
    &&& forall|i: int| 0 <= i < v.len() ==> 0 <= #[trigger] v[i] < n
    &&& forall|i: int, j: int| 0 <= i < j < v.len() ==> v[i] < v[j]
}

/// The lexicographically first selection of `k` positions starting at `lo`:
/// `[lo, lo + 1, ..., lo + k - 1]`.
pub open spec fn first_from(lo: int, k: nat) -> Seq<int> {
    Seq::new(k, |j: int| lo + j)
}

/// The first selection of `k` positions: `[0, 1, ..., k - 1]`.
pub open spec fn initial(k: nat) -> Seq<int> {
    first_from(0, k)
}

/// Position `i` of a `k`-vector over `n` may still grow: its value is below
/// `n - k + i`, which leaves room for strictly increasing values to its right.
pub open spec fn incrementable(v: Seq<int>, n: int, i: int) -> bool {
    v[i] < n - v.len() + i
}

/// The rightmost incrementable position among `0..=i`, or `-1` when none is.
pub open spec fn pivot_upto(v: Seq<int>, n: int, i: int) -> int
    decreases i + 1,
{
    if i < 0 {
        -1
    } else if incrementable(v, n, i) {
        i
    } else {
        pivot_upto(v, n, i - 1)
    }
}

/// The rightmost incrementable position of `v`, or `-1` when none is.
pub open spec fn pivot(v: Seq<int>, n: int) -> int {
    pivot_upto(v, n, v.len() - 1)
}

/// `v` with the value at `p` raised by one and every later position reset to
/// consecutive values after it.
pub open spec fn bump_at(v: Seq<int>, p: int) -> Seq<int> {
    Seq::new(v.len(), |j: int| if j < p { v[j] } else { v[p] + 1 + (j - p) })
}

/// The lexicographic successor of the selection `v` over `n` positions, or
/// `None` when `v` is the last one.
pub open spec fn successor(v: Seq<int>, n: int) -> Option<Seq<int>> {
    let p = pivot(v, n);
    if p < 0 {
        None
    } else {
        Some(bump_at(v, p))
    }
}

/// Position-wise lexicographic order on vectors of the same length: at the
/// leftmost position where they differ, `a` holds the smaller value.
pub open spec fn lex_less(a: Seq<int>, b: Seq<int>) -> bool {
    &&& a.len() == b.len()
    &&& exists|i: int|
        0 <= i < a.len() && a.subrange(0, i) == b.subrange(0, i) && #[trigger] a[i] < b[i]
}

/// The binomial coefficient `C(n, k)`, by Pascal's rule.
pub open spec fn binomial(n: nat, k: nat) -> nat
    decreases n,
{
    if k == 0 {
        1
    } else if n == 0 {
        0
    } else {
        binomial((n - 1) as nat, (k - 1) as nat) + binomial((n - 1) as nat, k)
    }
}

/// Every selection of `k` positions out of `[lo, n)`, in lexicographic order:
/// those that start with `lo`, then those that do not.
pub open spec fn combos(lo: int, n: int, k: nat) -> Seq<Seq<int>>
    decreases n - lo,
{
    if k == 0 {
        seq![Seq::empty()]
    } else if lo >= n {
        Seq::empty()
    } else {
        combos(lo + 1, n, (k - 1) as nat).map_values(|c: Seq<int>| seq![lo] + c)
            + combos(lo + 1, n, k)
    }
}

/// Every selection of `k` positions out of `n`, in the order in which they
/// are produced.
pub open spec fn all_selections(n: nat, k: nat) -> Seq<Seq<int>> {
    combos(0, n as int, k)
}

/// The number of selections of `k` positions out of `[lo, n)` is `C(n - lo, k)`.
pub proof fn lemma_combos_len(lo: int, n: int, k: nat)
    requires
        lo <= n,
    ensures
        combos(lo, n, k).len() == binomial((n - lo) as nat, k),
    decreases n - lo,
{
    if k != 0 && lo < n {
        lemma_combos_len(lo + 1, n, (k - 1) as nat);
        lemma_combos_len(lo + 1, n, k);
    }
}

/// Every member of `combos(lo, n, k)` is a selection of exactly `k` positions,
/// all of them at least `lo`.
pub proof fn lemma_combos_valid(lo: int, n: int, k: nat)
    requires
        0 <= lo,
    ensures
        forall|i: int|
            0 <= i < combos(lo, n, k).len() ==> {
                let c = #[trigger] combos(lo, n, k)[i];
                &&& c.len() == k
                &&& is_selection(c, n)
                &&& forall|j: int| 0 <= j < c.len() ==> lo <= #[trigger] c[j]
            },
    decreases n - lo,
{
    if k != 0 && lo < n {
        let a = combos(lo + 1, n, (k - 1) as nat);
        let b = combos(lo + 1, n, k);
        let s = combos(lo, n, k);
        lemma_combos_valid(lo + 1, n, (k - 1) as nat);
        lemma_combos_valid(lo + 1, n, k);
        assert forall|i: int| 0 <= i < s.len() implies {
            let c = #[trigger] s[i];
            &&& c.len() == k
            &&& is_selection(c, n)
            &&& forall|j: int| 0 <= j < c.len() ==> lo <= #[trigger] c[j]
        } by {
            if i < a.len() {
                let t = a[i];
                assert(s[i] == seq![lo] + t);
                assert forall|j: int| 0 <= j < t.len() implies lo < #[trigger] t[j] by {
                    assert(lo + 1 <= t[j]);
                }
                let c = s[i];
                assert forall|x: int, y: int| 0 <= x < y < c.len() implies c[x] < c[y] by {
                    if x > 0 {
                        assert(t[x - 1] < t[y - 1]);
                    } else {
                        assert(lo < t[y - 1]);
                    }
                }
            } else {
                assert(s[i] == b[i - a.len()]);
            }
        }
    }
}

/// The scan for the rightmost incrementable position of `a` followed by `t`
/// finds the one of `t`, shifted by one; failing that, position `0` when `a`
/// may grow.
proof fn lemma_pivot_cons(a: int, t: Seq<int>, n: int, i: int)
    requires
        -1 <= i < t.len(),
    ensures
        pivot_upto(seq![a] + t, n, i + 1) == if pivot_upto(t, n, i) >= 0 {
            pivot_upto(t, n, i) + 1
        } else if a < n - (t.len() + 1) {
            0
        } else {
            -1
        },
    decreases i + 1,
{
    let v = seq![a] + t;
    if i >= 0 {
        assert(v[i + 1] == t[i]);
        lemma_pivot_cons(a, t, n, i - 1);
        assert(incrementable(v, n, i + 1) == incrementable(t, n, i));
    } else {
        assert(v[0] == a);
        assert(pivot_upto(v, n, -1) == -1);
        assert(pivot_upto(t, n, -1) == -1);
    }
}

/// The successor of `a` followed by `t` keeps `a` and moves `t` on; when `t`
/// is the last of its kind, `a` grows and the rest starts again right after it.
pub proof fn lemma_successor_cons(a: int, t: Seq<int>, n: int)
    ensures
        successor(seq![a] + t, n) == match successor(t, n) {
            Some(u) => Some(seq![a] + u),
            None => if a < n - (t.len() + 1) {
                Some(first_from(a + 1, (t.len() + 1) as nat))
            } else {
                None
            },
        },
{
    let v = seq![a] + t;
    lemma_pivot_cons(a, t, n, t.len() - 1);
    assert(pivot(v, n) == pivot_upto(v, n, t.len() as int));
    let p = pivot(t, n);
    if p >= 0 {
        assert(bump_at(v, p + 1) =~= seq![a] + bump_at(t, p));
    } else if a < n - (t.len() + 1) {
        assert(bump_at(v, 0) =~= first_from(a + 1, (t.len() + 1) as nat));
    }
}

/// `combos(lo, n, k)` is one chain of successors: it starts at the first
/// selection, each member's successor is the next member, and the last member
/// has none. It is empty exactly when fewer than `k` positions are free.
pub proof fn lemma_combos_chain(lo: int, n: int, k: nat)
    requires
        0 <= lo <= n,
    ensures
        combos(lo, n, k).len() > 0 <==> n - lo >= k,
        n - lo >= k ==> combos(lo, n, k)[0] == first_from(lo, k),
        forall|i: int|
            0 <= i < combos(lo, n, k).len() - 1 ==> successor(#[trigger] combos(lo, n, k)[i], n)
                == Some(combos(lo, n, k)[i + 1]),
        combos(lo, n, k).len() > 0 ==> successor(combos(lo, n, k).last(), n) is None,
    decreases n - lo,
{
    let s = combos(lo, n, k);
    if k == 0 {
        assert(s[0] =~= first_from(lo, k));
        assert(pivot_upto(s[0], n, -1) == -1);
    } else if lo < n {
        let a = combos(lo + 1, n, (k - 1) as nat);
        let b = combos(lo + 1, n, k);
        lemma_combos_chain(lo + 1, n, (k - 1) as nat);
        lemma_combos_chain(lo + 1, n, k);
        lemma_combos_valid(lo + 1, n, (k - 1) as nat);
        assert(s.len() == a.len() + b.len());
        assert forall|i: int| 0 <= i < a.len() implies #[trigger] s[i] == seq![lo] + a[i] by {}
        assert forall|i: int| a.len() <= i < s.len() implies #[trigger] s[i] == b[i - a.len()] by {}
        if n - lo >= k {
            assert(s[0] =~= first_from(lo, k));
        }
        assert forall|i: int| 0 <= i < s.len() - 1 implies successor(#[trigger] s[i], n) == Some(
            s[i + 1],
        ) by {
            if i < a.len() {
                lemma_successor_cons(lo, a[i], n);
                if i + 1 < a.len() {
                } else {
                    assert(a[i] == a.last());
                    assert(s[i + 1] == b[0]);
                }
            } else {
                assert(s[i + 1] == b[i + 1 - a.len()]);
            }
        }
        if s.len() > 0 {
            if b.len() > 0 {
                assert(s.last() == b.last());
            } else {
                assert(s.last() == seq![lo] + a.last());
                lemma_successor_cons(lo, a.last(), n);
            }
        }
    }
}

/// Every selection of `k` positions out of `[lo, n)` is in `combos(lo, n, k)`.
pub proof fn lemma_combos_complete(lo: int, n: int, k: nat, v: Seq<int>)
    requires
        0 <= lo,
        v.len() == k,
        is_selection(v, n),
        forall|j: int| 0 <= j < v.len() ==> lo <= #[trigger] v[j],
    ensures
        combos(lo, n, k).contains(v),
    decreases n - lo,
{
    let s = combos(lo, n, k);
    if k == 0 {
        assert(v =~= s[0]);
    } else {
        assert(lo <= v[0] < n);
        let a = combos(lo + 1, n, (k - 1) as nat);
        let b = combos(lo + 1, n, k);
        if v[0] == lo {
            let t = v.drop_first();
            assert forall|j: int| 0 <= j < t.len() implies lo + 1 <= #[trigger] t[j] by {
                assert(v[0] < v[j + 1]);
            }
            lemma_combos_complete(lo + 1, n, (k - 1) as nat, t);
            let i = choose|i: int| 0 <= i < a.len() && a[i] == t;
            assert(s[i] =~= v);
        } else {
            assert forall|j: int| 0 <= j < v.len() implies lo + 1 <= #[trigger] v[j] by {
                if j > 0 {
                    assert(v[0] < v[j]);
                }
            }
            lemma_combos_complete(lo + 1, n, k, v);
            let i = choose|i: int| 0 <= i < b.len() && b[i] == v;
            assert(s[a.len() + i] == v);
        }
    }
}

/// No selection occurs twice in `combos(lo, n, k)`.
proof fn lemma_combos_distinct(lo: int, n: int, k: nat)
    requires
        0 <= lo,
    ensures
        forall|i: int, j: int|
            0 <= i < j < combos(lo, n, k).len() ==> #[trigger] combos(lo, n, k)[i]
                != #[trigger] combos(lo, n, k)[j],
    decreases n - lo,
{
    if k != 0 && lo < n {
        let s = combos(lo, n, k);
        let a = combos(lo + 1, n, (k - 1) as nat);
        let b = combos(lo + 1, n, k);
        lemma_combos_distinct(lo + 1, n, (k - 1) as nat);
        lemma_combos_distinct(lo + 1, n, k);
        lemma_combos_valid(lo + 1, n, k);
        assert forall|i: int, j: int| 0 <= i < j < s.len() implies #[trigger] s[i]
            != #[trigger] s[j] by {
            if j < a.len() {
                assert(s[i] == seq![lo] + a[i]);
                assert(s[j] == seq![lo] + a[j]);
                assert(a[i] == s[i].drop_first());
                assert(a[j] == s[j].drop_first());
            } else if i < a.len() {
                assert(s[i] == seq![lo] + a[i]);
                assert(s[j] == b[j - a.len()]);
                assert(s[i][0] == lo);
                assert(lo + 1 <= b[j - a.len()][0]);
            } else {
                assert(s[i] == b[i - a.len()]);
                assert(s[j] == b[j - a.len()]);
            }
        }
    }
}

/// The scan finds no position beyond `i`, and the one it finds may grow.
proof fn lemma_pivot_upto_bounds(v: Seq<int>, n: int, i: int)
    requires
        -1 <= i < v.len(),
    ensures
        -1 <= pivot_upto(v, n, i) <= i,
        pivot_upto(v, n, i) >= 0 ==> incrementable(v, n, pivot_upto(v, n, i)),
    decreases i + 1,
{
    if i >= 0 {
        lemma_pivot_upto_bounds(v, n, i - 1);
    }
}

/// Counting: enumerating from the first selection by successors yields
/// exactly the `C(n, k)` members of `all_selections(n, k)`, which are
/// precisely the selections of `k` positions out of `n`; there are none when
/// `k > n`, and one when `k == 0` or `k == n`.
pub proof fn lemma_enumeration_count(n: nat, k: nat)
    ensures
        all_selections(n, k).len() == binomial(n, k),
        k > n ==> binomial(n, k) == 0,
        k == 0 || k == n ==> binomial(n, k) == 1,
        k <= n ==> all_selections(n, k)[0] == initial(k),
        forall|i: int|
            0 <= i < all_selections(n, k).len() - 1 ==> successor(
                #[trigger] all_selections(n, k)[i],
                n as int,
            ) == Some(all_selections(n, k)[i + 1]),
        all_selections(n, k).len() > 0 ==> successor(all_selections(n, k).last(), n as int) is None,
        forall|i: int|
            0 <= i < all_selections(n, k).len() ==> (#[trigger] all_selections(n, k)[i]).len() == k
                && is_selection(all_selections(n, k)[i], n as int),
        forall|v: Seq<int>|
            v.len() == k && is_selection(v, n as int) ==> #[trigger] all_selections(n, k).contains(
                v,
            ),
{
    assert forall|v: Seq<int>| v.len() == k && is_selection(v, n as int) implies #[trigger] all_selections(
        n,
        k,
    ).contains(v) by {
        lemma_combos_complete(0, n as int, k, v);
    }
    lemma_combos_len(0, n as int, k);
    lemma_combos_chain(0, n as int, k);
    lemma_combos_valid(0, n as int, k);
    lemma_binomial_edges(n, k);
}

/// `C(n, k)` is `0` above `n` and `1` at both ends.
proof fn lemma_binomial_edges(n: nat, k: nat)
    ensures
        k > n ==> binomial(n, k) == 0,
        k == 0 || k == n ==> binomial(n, k) == 1,
    decreases n,
{
    if k != 0 && n != 0 {
        lemma_binomial_edges((n - 1) as nat, (k - 1) as nat);
        lemma_binomial_edges((n - 1) as nat, k);
    }
}

/// The successor of a selection of `k` positions out of `n` is again a
/// selection of `k` positions out of `n`.
pub proof fn lemma_successor_is_selection(v: Seq<int>, n: int)
    requires
        is_selection(v, n),
    ensures
        successor(v, n) is Some ==> successor(v, n).unwrap().len() == v.len() && is_selection(
            successor(v, n).unwrap(),
            n,
        ),
{
    lemma_pivot_upto_bounds(v, n, v.len() - 1);
    let p = pivot(v, n);
    if p >= 0 {
        let w = bump_at(v, p);
        assert forall|i: int| 0 <= i < w.len() implies 0 <= #[trigger] w[i] < n by {
            if i >= p {
                assert(0 <= v[p]);
            }
        }
        assert forall|i: int, j: int| 0 <= i < j < w.len() implies w[i] < w[j] by {
            if j < p {
                assert(v[i] < v[j]);
            } else if i < p {
                assert(v[i] < v[p]);
            }
        }
    }
}

/// A successor lies strictly after its selection in lexicographic order.
pub proof fn lemma_successor_lex_greater(v: Seq<int>, n: int)
    ensures
        successor(v, n) is Some ==> lex_less(v, successor(v, n).unwrap()),
{
    lemma_pivot_upto_bounds(v, n, v.len() - 1);
    let p = pivot(v, n);
    if p >= 0 {
        let w = bump_at(v, p);
        assert(v.subrange(0, p) =~= w.subrange(0, p));
        assert(v[p] < w[p]);
    }
}

/// Each selection is produced before every one that is lexicographically
/// greater: consecutive members of `all_selections(n, k)` increase.
pub proof fn lemma_enumeration_lex_order(n: nat, k: nat)
    ensures
        forall|i: int|
            0 <= i < all_selections(n, k).len() - 1 ==> lex_less(
                #[trigger] all_selections(n, k)[i],
                all_selections(n, k)[i + 1],
            ),
{
    let s = all_selections(n, k);
    lemma_combos_chain(0, n as int, k);
    assert forall|i: int| 0 <= i < s.len() - 1 implies lex_less(#[trigger] s[i], s[i + 1]) by {
        lemma_successor_lex_greater(s[i], n as int);
    }
}

/// One full enumeration never produces the same selection twice.
pub proof fn lemma_enumeration_no_duplicates(n: nat, k: nat)
    ensures
        forall|i: int, j: int|
            0 <= i < j < all_selections(n, k).len() ==> #[trigger] all_selections(n, k)[i]
                != #[trigger] all_selections(n, k)[j],
{
    lemma_combos_distinct(0, n as int, k);
}

} // verus!
