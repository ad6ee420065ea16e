//! Shortest matching window search: given a query sequence and a reference
//! sequence, find the shortest contiguous index range of the reference that
//! contains the query as an ordered (gaps allowed) subsequence.

use vstd::prelude::*;

pub mod matching;

verus! {

use vstd::std_specs::cmp::PartialEqSpec;
use crate::matching::best_ok;
use crate::matching::elem_eq;
use crate::matching::entry_bound;
use crate::matching::is_window;
use crate::matching::lemma_best_carry;
use crate::matching::lemma_reaches_bounds;
use crate::matching::lemma_reaches_extend;
use crate::matching::lemma_reaches_first;
use crate::matching::lemma_reaches_prefix;
use crate::matching::lemma_reaches_skip;
use crate::matching::lemma_reaches_widen;
use crate::matching::lemma_window_endpoints;
use crate::matching::lemma_window_from_reaches;
use crate::matching::lemma_window_last_step;
use crate::matching::lemma_window_single;
use crate::matching::lemma_window_single_inv;
use crate::matching::level_ok;
use crate::matching::pair_bound;
use crate::matching::reaches;
use crate::matching::span_post;

/// Returns the shortest inclusive index range `[start, end]` of `history`
/// that contains `query` as an ordered, not necessarily contiguous,
/// subsequence; `None` when none exists. An empty query yields `(0, 0)` by
/// convention. Among windows of minimal length, which one is returned is
/// left open.
///
/// The exact contract holds for any element type whose `eq` agrees with its
/// `PartialEq` specification (`obeys_eq_spec`); the conventions for the
/// empty query and the empty reference hold for every element type.
pub fn span<A: PartialEq>(query: &Vec<A>, history: &Vec<A>) -> (r: Option<(usize, usize)>)
    ensures
        <A as PartialEqSpec>::obeys_eq_spec() ==> span_post(query@, history@, r),
        query@.len() == 0 ==> r == Some((0usize, 0usize)),
        query@.len() > 0 && history@.len() == 0 ==> r is None,
        r matches Some(p) ==> p.0 <= p.1,
        query@.len() > 0 && r is Some ==> ((r->Some_0).1 as int) < history@.len(),
{
    let ghost q = query@;
    let ghost h = history@;
    let ghost obeys: bool = <A as PartialEqSpec>::obeys_eq_spec();

    let m: usize = query.len();
    if m == 0 {
        return Some((0, 0));
    }

    // One slot per query position, holding the reference index at which the
    // earliest-known partial match through that position began.
    let mut start_indices: Vec<Option<usize>> = Vec::new();
    while start_indices.len() < m
        invariant
            start_indices@.len() <= m,
            forall|t: int| 0 <= t < start_indices@.len() ==> start_indices@[t] is None,
        decreases m - start_indices@.len(),
    {
        start_indices.push(None);
    }

    let mut best_span: Option<(usize, usize)> = None;

    proof {
        if obeys {
            assert forall|t: int| 0 <= t < m implies level_ok(
                q,
                h,
                #[trigger] start_indices@[t],
                t,
                0,
            ) by {
                assert forall|s2: int| !reaches(q, h, t, 0, s2) by {
                    if reaches(q, h, t, 0, s2) {
                        lemma_reaches_bounds(q, h, t, 0, s2);
                    }
                }
            }
            assert forall|s2: int, e2: int| !(is_window(q, h, s2, e2) && e2 < 0) by {
                if is_window(q, h, s2, e2) {
                    lemma_window_endpoints(q, h, s2, e2);
                }
            }
            assert(best_ok(q, h, best_span, 0));
        }
    }

    let n: usize = history.len();
    let mut j: usize = 0;
    while j < n
        invariant
            q == query@,
            h == history@,
            obeys == <A as PartialEqSpec>::obeys_eq_spec(),
            m == q.len(),
            1 <= m,
            n == h.len(),
            j <= n,
            start_indices@.len() == m,
            forall|t: int| 0 <= t < m ==> entry_bound(#[trigger] start_indices@[t], j as int),
            pair_bound(best_span, j as int),
            obeys ==> forall|t: int|
                0 <= t < m ==> level_ok(q, h, #[trigger] start_indices@[t], t, j as int),
            obeys ==> best_ok(q, h, best_span, j as int),
        decreases n - j,
    {
        // Scan the query positions from last to first, so that a slot read
        // at this reference position still holds its value from before this
        // position, and one reference element never both starts a chain and
        // extends it within the same step.
        let mut k: usize = m;
        while k > 0
            invariant
                q == query@,
                h == history@,
                obeys == <A as PartialEqSpec>::obeys_eq_spec(),
                m == q.len(),
                1 <= m,
                n == h.len(),
                j < n,
                k <= m,
                start_indices@.len() == m,
                forall|t: int| 0 <= t < k ==> entry_bound(#[trigger] start_indices@[t], j as int),
                forall|t: int|
                    k <= t < m ==> entry_bound(#[trigger] start_indices@[t], j as int + 1),
                pair_bound(best_span, j as int + 1),
                k == m ==> pair_bound(best_span, j as int),
                obeys ==> forall|t: int|
                    0 <= t < k ==> level_ok(q, h, #[trigger] start_indices@[t], t, j as int),
                obeys ==> forall|t: int|
                    k <= t < m ==> level_ok(q, h, #[trigger] start_indices@[t], t, j as int + 1),
                obeys ==> (k == m ==> best_ok(q, h, best_span, j as int)),
                obeys ==> (k < m ==> best_ok(q, h, best_span, j as int + 1)),
            decreases k,
        {
            k = k - 1;
            let ghost pre_tab = start_indices@;
            if query[k].eq(&history[j]) {
                if k == 0 {
                    start_indices[0] = Some(j);
                } else {
                    let prev = start_indices[k - 1];
                    start_indices[k] = prev;
                }
                proof {
                    if obeys {
                        let kk = k as int;
                        let jj = j as int;
                        assert(elem_eq(q[kk], h[jj]));
                        let jn: int = jj + 1;
                        if k == 0 {
                            lemma_reaches_first(q, h, jj);
                            assert forall|s2: int| #[trigger] reaches(q, h, 0, jn, s2) implies s2
                                <= jj by {
                                lemma_reaches_bounds(q, h, 0, jn, s2);
                            }
                            assert(level_ok(q, h, start_indices@[0], 0, jj + 1));
                        } else {
                            assert(level_ok(q, h, pre_tab[kk - 1], kk - 1, jj));
                            match pre_tab[kk - 1] {
                                Some(sp) => {
                                    lemma_reaches_extend(q, h, kk, jj, sp as int);
                                    assert forall|s2: int| #[trigger] reaches(q, h, kk, jn, s2)
                                        implies s2 <= sp as int by {
                                        lemma_reaches_prefix(q, h, kk, jn, s2);
                                    }
                                },
                                None => {
                                    assert forall|s2: int| !(#[trigger] reaches(q, h, kk, jn, s2)) by {
                                        if reaches(q, h, kk, jn, s2) {
                                            lemma_reaches_prefix(q, h, kk, jn, s2);
                                        }
                                    }
                                },
                            }
                            assert(level_ok(q, h, start_indices@[kk], kk, jj + 1));
                        }
                    }
                }
                if k == m - 1 {
                    if let Some(start) = start_indices[m - 1] {
                        proof {
                            if obeys {
                                let jj = j as int;
                                if m == 1 {
                                    lemma_window_single(q, h, jj);
                                    assert(start == j);
                                } else {
                                    assert(pre_tab[m - 2] == Some(start));
                                    assert(reaches(q, h, m as int - 2, jj, start as int));
                                    lemma_window_from_reaches(q, h, jj, start as int);
                                }
                                assert(is_window(q, h, start as int, jj));
                                assert forall|s2: int, e2: int|
                                    is_window(q, h, s2, e2) && e2 == jj implies s2
                                    <= start as int by {
                                    if m == 1 {
                                        lemma_window_single_inv(q, h, s2, e2);
                                    } else {
                                        lemma_window_last_step(q, h, s2, e2);
                                    }
                                }
                            }
                        }
                        let end: usize = j;
                        let ghost prior_best = best_span;
                        best_span = match best_span {
                            None => Some((start, end)),
                            Some((curr_start, curr_end)) => {
                                if end - start < curr_end - curr_start {
                                    Some((start, end))
                                } else {
                                    Some((curr_start, curr_end))
                                }
                            },
                        };
                        proof {
                            if obeys {
                                let jj = j as int;
                                let p = best_span->Some_0;
                                assert forall|s2: int, e2: int|
                                    is_window(q, h, s2, e2) && e2 < jj + 1 implies e2 - s2
                                    >= p.1 as int - p.0 as int by {
                                    if e2 == jj {
                                        assert(s2 <= start as int);
                                    } else {
                                        assert(e2 < jj);
                                        if prior_best is None {
                                            assert(!(is_window(q, h, s2, e2) && e2 < jj));
                                        }
                                    }
                                }
                                assert(best_ok(q, h, best_span, jj + 1));
                            }
                        }
                    } else {
                        proof {
                            if obeys {
                                let jj = j as int;
                                assert(m >= 2);
                                assert forall|s2: int, e2: int|
                                    !(is_window(q, h, s2, e2) && e2 == jj) by {
                                    if is_window(q, h, s2, e2) && e2 == jj {
                                        lemma_window_last_step(q, h, s2, e2);
                                        assert(reaches(q, h, m as int - 2, jj, s2));
                                    }
                                }
                                lemma_best_carry(q, h, best_span, jj);
                            }
                        }
                    }
                }
            } else {
                proof {
                    if obeys {
                        let kk = k as int;
                        let jj = j as int;
                        assert(!elem_eq(q[kk], h[jj]));
                        let jn: int = jj + 1;
                        match start_indices@[kk] {
                            Some(s) => {
                                lemma_reaches_widen(q, h, kk, jj, jn, s as int);
                                assert forall|s2: int| #[trigger] reaches(q, h, kk, jn, s2)
                                    implies s2 <= s as int by {
                                    lemma_reaches_skip(q, h, kk, jj, s2);
                                }
                            },
                            None => {
                                assert forall|s2: int| !(#[trigger] reaches(q, h, kk, jn, s2)) by {
                                    if reaches(q, h, kk, jn, s2) {
                                        lemma_reaches_skip(q, h, kk, jj, s2);
                                    }
                                }
                            },
                        }
                        assert(level_ok(q, h, start_indices@[kk], kk, jj + 1));
                        if k == m - 1 {
                            assert forall|s2: int, e2: int|
                                !(is_window(q, h, s2, e2) && e2 == jj) by {
                                if is_window(q, h, s2, e2) && e2 == jj {
                                    lemma_window_endpoints(q, h, s2, e2);
                                }
                            }
                            lemma_best_carry(q, h, best_span, jj);
                        }
                    }
                }
            }
        }
        j = j + 1;
    }

    proof {
        if obeys {
            match best_span {
                Some(p) => {
                    assert forall|s2: int, e2: int| is_window(q, h, s2, e2) implies e2 - s2
                        >= p.1 as int - p.0 as int by {
                        lemma_window_endpoints(q, h, s2, e2);
                    }
                },
                None => {
                    assert forall|s2: int, e2: int| !is_window(q, h, s2, e2) by {
                        if is_window(q, h, s2, e2) {
                            lemma_window_endpoints(q, h, s2, e2);
                        }
                    }
                },
            }
            assert(span_post(q, h, best_span));
        }
    }
    best_span
}

} // verus!
