//! Mathematical model of a subsequence match: chains of strictly increasing
//! reference indices whose elements agree with the query, windows spanned by
//! such chains, and the facts about them that the search contract rests on.

use vstd::prelude::*;
use vstd::std_specs::cmp::PartialEqSpec;

verus! {

/// The equality the search goes by: the query element's own `eq`, applied to
/// a reference element, as `PartialEq` specifies it.
pub open spec fn elem_eq<A: PartialEq>(q: A, r: A) -> bool {
    q.eq_spec(&r)
}

/// `c` lists reference indices, strictly increasing and in bounds, such that
/// the element at `c[i]` agrees with query element `i`. A chain as long as
/// the whole query is a complete subsequence match.
pub open spec fn is_chain<A: PartialEq>(q: Seq<A>, h: Seq<A>, c: Seq<int>) -> bool {
    &&& c.len() <= q.len()
    &&& forall|i: int, i2: int| 0 <= i < i2 < c.len() ==> #[trigger] c[i] < #[trigger] c[i2]
    &&& forall|i: int| 0 <= i < c.len() ==> 0 <= #[trigger] c[i] < h.len()
    &&& forall|i: int| 0 <= i < c.len() ==> elem_eq(q[i], h[#[trigger] c[i]])
}

/// Some chain matches the query prefix `q[0..=k]`, starts at reference index
/// `s`, and lies entirely before reference index `j`.
pub(crate) open spec fn reaches<A: PartialEq>(q: Seq<A>, h: Seq<A>, k: int, j: int, s: int) -> bool {
    exists|c: Seq<int>|
        {
            &&& #[trigger] is_chain(q, h, c)
            &&& c.len() == k + 1
            &&& 0 <= k
            &&& c[0] == s
            &&& c[k] < j
        }
}

/// The inclusive reference range `[s, e]` carries a complete match of the
/// query: a full-length chain starting exactly at `s` and ending exactly at
/// `e`.
pub open spec fn is_window<A: PartialEq>(q: Seq<A>, h: Seq<A>, s: int, e: int) -> bool {
    q.len() > 0 && exists|c: Seq<int>|
        {
            &&& #[trigger] is_chain(q, h, c)
            &&& c.len() == q.len()
            &&& c[0] == s
            &&& c[q.len() - 1] == e
        }
}

/// What the search returns: the degenerate `(0, 0)` for an empty query, and
/// otherwise either a minimal-length window or, when no window exists at all,
/// nothing. Ties among minimal windows are deliberately left open.
pub open spec fn span_post<A: PartialEq>(
    q: Seq<A>,
    h: Seq<A>,
    r: Option<(usize, usize)>,
) -> bool {
    if q.len() == 0 {
        r == Some((0usize, 0usize))
    } else {
        match r {
            Some(p) => {
                &&& is_window(q, h, p.0 as int, p.1 as int)
                &&& forall|s2: int, e2: int|
                    is_window(q, h, s2, e2) ==> e2 - s2 >= p.1 as int - p.0 as int
            },
            None => forall|s2: int, e2: int| !is_window(q, h, s2, e2),
        }
    }
}

/// A slot of the working table is right for query level `k` once every
/// reference index before `j` has been scanned: it holds the latest possible
/// start of a chain for `q[0..=k]` lying before `j`, or nothing when no such
/// chain exists.
pub(crate) open spec fn level_ok<A: PartialEq>(
    q: Seq<A>,
    h: Seq<A>,
    entry: Option<usize>,
    k: int,
    j: int,
) -> bool {
    match entry {
        Some(s) => reaches(q, h, k, j, s as int) && forall|s2: int|
            reaches(q, h, k, j, s2) ==> s2 <= s as int,
        None => forall|s2: int| !reaches(q, h, k, j, s2),
    }
}

/// The running best is right once every reference index before `j` has been
/// scanned: it is a window ending before `j` of minimal length among those,
/// or nothing when no window ends before `j`.
pub(crate) open spec fn best_ok<A: PartialEq>(
    q: Seq<A>,
    h: Seq<A>,
    b: Option<(usize, usize)>,
    j: int,
) -> bool {
    match b {
        Some(p) => {
            &&& is_window(q, h, p.0 as int, p.1 as int)
            &&& p.0 <= p.1
            &&& (p.1 as int) < j
            &&& forall|s2: int, e2: int|
                is_window(q, h, s2, e2) && e2 < j ==> e2 - s2 >= p.1 as int - p.0 as int
        },
        None => forall|s2: int, e2: int| !(is_window(q, h, s2, e2) && e2 < j),
    }
}

/// Bound on a table slot: when it holds a start, that start lies before `j`.
pub(crate) open spec fn entry_bound(entry: Option<usize>, j: int) -> bool {
    entry matches Some(s) ==> (s as int) < j
}

/// Bound on the running best: when it holds a window, the window is ordered
/// and ends before `j`.
pub(crate) open spec fn pair_bound(b: Option<(usize, usize)>, j: int) -> bool {
    b matches Some(p) ==> p.0 <= p.1 && (p.1 as int) < j
}

/// A chain cut down to its first `l` entries is still a chain.
pub(crate) proof fn lemma_chain_take<A: PartialEq>(q: Seq<A>, h: Seq<A>, c: Seq<int>, l: int)
    requires
        is_chain(q, h, c),
        0 <= l <= c.len(),
    ensures
        is_chain(q, h, c.take(l)),
{
    assert forall|i: int| 0 <= i < l implies c.take(l)[i] == c[i] by {}
}

/// A chain matching `q[0..c.len()]` grows by one entry `j` that comes after
/// all of it and matches the next query element.
pub(crate) proof fn lemma_chain_push<A: PartialEq>(q: Seq<A>, h: Seq<A>, c: Seq<int>, j: int)
    requires
        is_chain(q, h, c),
        c.len() < q.len(),
        0 <= j < h.len(),
        c.len() > 0 ==> c[c.len() - 1] < j,
        elem_eq(q[c.len() as int], h[j]),
    ensures
        is_chain(q, h, c.push(j)),
{
    let c2 = c.push(j);
    assert forall|i: int, i2: int| 0 <= i < i2 < c2.len() implies c2[i] < c2[i2] by {
        if i2 == c.len() {
            if i < c.len() - 1 {
                assert(c[i] < c[c.len() - 1]);
            }
        }
    }
}

/// A chain that lies before `j` also lies before any later bound.
pub(crate) proof fn lemma_reaches_widen<A: PartialEq>(q: Seq<A>, h: Seq<A>, k: int, j: int, j2: int, s: int)
    requires
        reaches(q, h, k, j, s),
        j <= j2,
    ensures
        reaches(q, h, k, j2, s),
{
    let c = choose|c: Seq<int>|
        {
            &&& is_chain(q, h, c)
            &&& c.len() == k + 1
            &&& 0 <= k
            &&& c[0] == s
            &&& c[k] < j
        };
    assert(is_chain(q, h, c) && c.len() == k + 1 && c[0] == s && c[k] < j2);
}

/// Dropping the last entry of a chain for `q[0..=k]` leaves a chain for
/// `q[0..=k-1]` with the same start, lying strictly earlier.
pub(crate) proof fn lemma_reaches_prefix<A: PartialEq>(q: Seq<A>, h: Seq<A>, k: int, j: int, s: int)
    requires
        reaches(q, h, k, j, s),
        k >= 1,
    ensures
        reaches(q, h, k - 1, j - 1, s),
{
    let c = choose|c: Seq<int>|
        {
            &&& is_chain(q, h, c)
            &&& c.len() == k + 1
            &&& 0 <= k
            &&& c[0] == s
            &&& c[k] < j
        };
    let c2 = c.take(k);
    lemma_chain_take(q, h, c, k);
    assert(c[k - 1] < c[k]);
    assert(c2[0] == s && c2[k - 1] < j - 1);
    assert(is_chain(q, h, c2) && c2.len() == (k - 1) + 1 && c2[0] == s && c2[k - 1] < j - 1);
}

/// When reference element `j` does not match query element `k`, no chain for
/// `q[0..=k]` ends at `j`, so lying before `j + 1` is no more than lying
/// before `j`.
pub(crate) proof fn lemma_reaches_skip<A: PartialEq>(q: Seq<A>, h: Seq<A>, k: int, j: int, s: int)
    requires
        reaches(q, h, k, j + 1, s),
        0 <= k < q.len(),
        0 <= j,
        j < h.len() ==> !elem_eq(q[k], h[j]),
    ensures
        reaches(q, h, k, j, s),
{
    let c = choose|c: Seq<int>|
        {
            &&& is_chain(q, h, c)
            &&& c.len() == k + 1
            &&& 0 <= k
            &&& c[0] == s
            &&& c[k] < j + 1
        };
    if c[k] == j {
        assert(elem_eq(q[k], h[c[k]]));
        assert(false);
    }
    assert(is_chain(q, h, c) && c.len() == k + 1 && c[0] == s && c[k] < j);
}

/// Whatever some chain reaches lies within bounds: the start is a real
/// reference index before the bound, so the bound is positive.
pub(crate) proof fn lemma_reaches_bounds<A: PartialEq>(q: Seq<A>, h: Seq<A>, k: int, j: int, s: int)
    requires
        reaches(q, h, k, j, s),
    ensures
        0 <= s,
        s < j,
{
    let c = choose|c: Seq<int>|
        {
            &&& is_chain(q, h, c)
            &&& c.len() == k + 1
            &&& 0 <= k
            &&& c[0] == s
            &&& c[k] < j
        };
    if k > 0 {
        assert(c[0] < c[k]);
    }
}

/// A chain for `q[0..=k-1]` lying before `j` grows into one for `q[0..=k]`
/// lying before `j + 1`, with the same start, when reference element `j`
/// matches query element `k`.
pub(crate) proof fn lemma_reaches_extend<A: PartialEq>(q: Seq<A>, h: Seq<A>, k: int, j: int, s: int)
    requires
        reaches(q, h, k - 1, j, s),
        1 <= k < q.len(),
        0 <= j < h.len(),
        elem_eq(q[k], h[j]),
    ensures
        reaches(q, h, k, j + 1, s),
{
    let c = choose|c: Seq<int>|
        {
            &&& is_chain(q, h, c)
            &&& c.len() == (k - 1) + 1
            &&& 0 <= k - 1
            &&& c[0] == s
            &&& c[k - 1] < j
        };
    lemma_chain_push(q, h, c, j);
    let c2 = c.push(j);
    assert(is_chain(q, h, c2) && c2.len() == k + 1 && c2[0] == s && c2[k] < j + 1);
}

/// A fresh chain of length one begins wherever reference element `j` matches
/// the first query element.
pub(crate) proof fn lemma_reaches_first<A: PartialEq>(q: Seq<A>, h: Seq<A>, j: int)
    requires
        q.len() >= 1,
        0 <= j < h.len(),
        elem_eq(q[0], h[j]),
    ensures
        reaches(q, h, 0, j + 1, j),
{
    let c = seq![j];
    assert(c[0] == j);
    assert(is_chain(q, h, c) && c.len() == 0 + 1 && c[0] == j && c[0] < j + 1);
}

/// A complete match ending at `j` arises from a chain for all but the last
/// query element lying before `j`, when reference element `j` matches the
/// last query element.
pub(crate) proof fn lemma_window_from_reaches<A: PartialEq>(q: Seq<A>, h: Seq<A>, j: int, s: int)
    requires
        q.len() >= 2,
        reaches(q, h, q.len() - 2, j, s),
        0 <= j < h.len(),
        elem_eq(q[q.len() - 1], h[j]),
    ensures
        is_window(q, h, s, j),
{
    let k = q.len() - 2;
    let c = choose|c: Seq<int>|
        {
            &&& is_chain(q, h, c)
            &&& c.len() == k + 1
            &&& 0 <= k
            &&& c[0] == s
            &&& c[k] < j
        };
    lemma_chain_push(q, h, c, j);
    let c2 = c.push(j);
    assert(is_chain(q, h, c2) && c2.len() == q.len() && c2[0] == s && c2[q.len() - 1] == j);
}

/// For a one-element query, a matching reference element is a window of its
/// own.
pub(crate) proof fn lemma_window_single<A: PartialEq>(q: Seq<A>, h: Seq<A>, j: int)
    requires
        q.len() == 1,
        0 <= j < h.len(),
        elem_eq(q[0], h[j]),
    ensures
        is_window(q, h, j, j),
{
    let c = seq![j];
    assert(c[0] == j);
    assert(is_chain(q, h, c) && c.len() == q.len() && c[0] == j && c[q.len() - 1] == j);
}

/// For a one-element query, every window is a single matching element.
pub(crate) proof fn lemma_window_single_inv<A: PartialEq>(q: Seq<A>, h: Seq<A>, s: int, e: int)
    requires
        is_window(q, h, s, e),
        q.len() == 1,
    ensures
        s == e,
{
    let c = choose|c: Seq<int>|
        {
            &&& is_chain(q, h, c)
            &&& c.len() == q.len()
            &&& c[0] == s
            &&& c[q.len() - 1] == e
        };
}

/// Cutting the last element off a window's chain: the rest is a chain for
/// all but the last query element, with the same start, lying before the
/// window's end.
pub(crate) proof fn lemma_window_last_step<A: PartialEq>(q: Seq<A>, h: Seq<A>, s: int, e: int)
    requires
        is_window(q, h, s, e),
        q.len() >= 2,
    ensures
        reaches(q, h, q.len() - 2, e, s),
{
    let c = choose|c: Seq<int>|
        {
            &&& is_chain(q, h, c)
            &&& c.len() == q.len()
            &&& c[0] == s
            &&& c[q.len() - 1] == e
        };
    let k = q.len() - 2;
    lemma_chain_take(q, h, c, q.len() - 1);
    let c2 = c.take(q.len() - 1);
    assert(c[k] < c[q.len() - 1]);
    assert(is_chain(q, h, c2) && c2.len() == k + 1 && 0 <= k && c2[0] == s && c2[k] < e);
}

/// When no window ends at `j`, the running best for everything before `j`
/// is also the running best for everything before `j + 1`.
pub(crate) proof fn lemma_best_carry<A: PartialEq>(
    q: Seq<A>,
    h: Seq<A>,
    b: Option<(usize, usize)>,
    j: int,
)
    requires
        best_ok(q, h, b, j),
        forall|s2: int, e2: int| !(is_window(q, h, s2, e2) && e2 == j),
    ensures
        best_ok(q, h, b, j + 1),
{
    match b {
        Some(p) => {
            assert forall|s2: int, e2: int| is_window(q, h, s2, e2) && e2 < j + 1 implies e2 - s2
                >= p.1 as int - p.0 as int by {
                assert(!(is_window(q, h, s2, e2) && e2 == j));
            }
        },
        None => {
            assert forall|s2: int, e2: int| !(is_window(q, h, s2, e2) && e2 < j + 1) by {
                assert(!(is_window(q, h, s2, e2) && e2 == j));
            }
        },
    }
}

/// Entries of a chain spread at least as fast as their positions: between
/// positions `i` and `i2` the indices grow by at least `i2 - i`.
pub(crate) proof fn lemma_chain_spread<A: PartialEq>(q: Seq<A>, h: Seq<A>, c: Seq<int>, i: int, i2: int)
    requires
        is_chain(q, h, c),
        0 <= i <= i2 < c.len(),
    ensures
        c[i2] - c[i] >= i2 - i,
    decreases i2 - i,
{
    if i < i2 {
        lemma_chain_spread(q, h, c, i, i2 - 1);
        assert(c[i2 - 1] < c[i2]);
    }
}

/// What a window pins down at its ends: the window is within bounds, its
/// first index carries the first query element, its last carries the last,
/// and it is at least as long as the query.
pub proof fn lemma_window_endpoints<A: PartialEq>(q: Seq<A>, h: Seq<A>, s: int, e: int)
    requires
        is_window(q, h, s, e),
    ensures
        0 <= s <= e < h.len(),
        elem_eq(q[0], h[s]),
        elem_eq(q[q.len() - 1], h[e]),
        e - s + 1 >= q.len(),
{
    let c = choose|c: Seq<int>|
        {
            &&& is_chain(q, h, c)
            &&& c.len() == q.len()
            &&& c[0] == s
            &&& c[q.len() - 1] == e
        };
    lemma_chain_spread(q, h, c, 0, q.len() - 1);
}

/// A returned window is anchored: for a non-empty query, whenever the search
/// contract holds and a window came back, that window starts at an element
/// equal to the first query element, ends at one equal to the last, its ends
/// are ordered and within bounds, it is at least as long as the query, and a
/// full-length strictly increasing chain of matching indices spans it.
pub proof fn lemma_result_anchored<A: PartialEq>(q: Seq<A>, h: Seq<A>, r: Option<(usize, usize)>)
    requires
        span_post(q, h, r),
        q.len() > 0,
        r is Some,
    ensures
        (r->Some_0).0 <= (r->Some_0).1,
        ((r->Some_0).1 as int) < h.len(),
        elem_eq(q[0], h[(r->Some_0).0 as int]),
        elem_eq(q[q.len() - 1], h[(r->Some_0).1 as int]),
        (r->Some_0).1 as int - (r->Some_0).0 as int + 1 >= q.len(),
        is_window(q, h, (r->Some_0).0 as int, (r->Some_0).1 as int),
{
    let p = r->Some_0;
    lemma_window_endpoints(q, h, p.0 as int, p.1 as int);
}

/// A window of a reference stays a window, at the same place, when the
/// reference is extended on the right.
pub proof fn lemma_window_in_extension<A: PartialEq>(
    q: Seq<A>,
    h1: Seq<A>,
    h2: Seq<A>,
    s: int,
    e: int,
)
    requires
        is_window(q, h1, s, e),
        h1.is_prefix_of(h2),
    ensures
        is_window(q, h2, s, e),
{
    let c = choose|c: Seq<int>|
        {
            &&& is_chain(q, h1, c)
            &&& c.len() == q.len()
            &&& c[0] == s
            &&& c[q.len() - 1] == e
        };
    assert forall|i: int| 0 <= i < c.len() implies 0 <= #[trigger] c[i] < h2.len()
        && elem_eq(q[i], h2[c[i]]) by {
        assert(h1[c[i]] == h2.subrange(0, h1.len() as int)[c[i]]);
    }
    assert(is_chain(q, h2, c) && c.len() == q.len() && c[0] == s && c[q.len() - 1] == e);
}

/// Appending to the reference never worsens the search: whenever a result
/// exists for a prefix, a result exists for the extension, and it is no
/// longer.
pub proof fn lemma_no_regression<A: PartialEq>(
    q: Seq<A>,
    h1: Seq<A>,
    h2: Seq<A>,
    r1: Option<(usize, usize)>,
    r2: Option<(usize, usize)>,
)
    requires
        span_post(q, h1, r1),
        span_post(q, h2, r2),
        h1.is_prefix_of(h2),
        r1 is Some,
    ensures
        r2 is Some,
        (r2->Some_0).1 - (r2->Some_0).0 <= (r1->Some_0).1 - (r1->Some_0).0,
{
    if q.len() > 0 {
        let p1 = r1->Some_0;
        lemma_window_in_extension(q, h1, h2, p1.0 as int, p1.1 as int);
        match r2 {
            Some(p2) => {
                assert(is_window(q, h2, p1.0 as int, p1.1 as int));
            },
            None => {
                assert(!is_window(q, h2, p1.0 as int, p1.1 as int));
                assert(false);
            },
        }
    }
}

/// Up to the open tie among minimal windows, the result is a function of the
/// inputs: any two results for the same query and reference agree on whether
/// a window exists and on the minimal length.
pub proof fn lemma_result_length_unique<A: PartialEq>(
    q: Seq<A>,
    h: Seq<A>,
    r1: Option<(usize, usize)>,
    r2: Option<(usize, usize)>,
)
    requires
        span_post(q, h, r1),
        span_post(q, h, r2),
    ensures
        r1 is Some <==> r2 is Some,
        r1 is Some && r2 is Some ==> (r1->Some_0).1 - (r1->Some_0).0 == (r2->Some_0).1 - (
        r2->Some_0).0,
{
    if q.len() > 0 {
        match (r1, r2) {
            (Some(p1), Some(p2)) => {
                assert(is_window(q, h, p1.0 as int, p1.1 as int));
                assert(is_window(q, h, p2.0 as int, p2.1 as int));
            },
            (Some(p1), None) => {
                assert(!is_window(q, h, p1.0 as int, p1.1 as int));
                assert(false);
            },
            (None, Some(p2)) => {
                assert(!is_window(q, h, p2.0 as int, p2.1 as int));
                assert(false);
            },
            (None, None) => {},
        }
    }
}

} // verus!
