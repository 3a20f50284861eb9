//! Prior knowledge for DirectLiNGAM and the bookkeeping of its causal-order
//! search: which variables may be placed next, and what placing one does.
//! The entropy-based scores that choose among the candidates are computed by
//! the caller.

use vstd::prelude::*;
use crate::util::rows_view;

verus! {

/// `pk` is an `n` by `n` matrix.
pub open spec fn is_square(pk: Seq<Seq<i64>>, n: nat) -> bool {
    &&& pk.len() == n
    &&& forall|i: int| 0 <= i < n ==> #[trigger] pk[i].len() == n
}

/// The matrix states both that `x_b` has a path to `x_a` and that `x_a` has a
/// path to `x_b` (for `a == b`: that `x_a` has a path to itself).
pub open spec fn inconsistent_at(pk: Seq<Seq<i64>>, a: int, b: int) -> bool {
    pk[a][b] == 1 && pk[b][a] == 1
}

/// The matrix orders `from` before `to`: it states a path from `x_from` to
/// `x_to`, or it states that `x_to` has no path to `x_from` while not stating
/// the same of the reverse direction (mutual "no path" statements cancel out).
pub open spec fn ordered_before(pk: Seq<Seq<i64>>, from: int, to: int) -> bool {
    pk[to][from] == 1 || (pk[from][to] == 0 && pk[to][from] != 0)
}

/// Row-major order on index pairs.
pub open spec fn pair_lt(x: (usize, usize), y: (usize, usize)) -> bool {
    x.0 < y.0 || (x.0 == y.0 && x.1 < y.1)
}

/// Order on `(from, to)` pairs by `to`, then by `from`.
pub open spec fn partial_order_lt(x: (usize, usize), y: (usize, usize)) -> bool {
    x.1 < y.1 || (x.1 == y.1 && x.0 < y.0)
}

/// `bad` lists, in row-major order, every pair at which `pk` is inconsistent.
pub open spec fn lists_inconsistencies(pk: Seq<Seq<i64>>, bad: Seq<(usize, usize)>) -> bool {
    &&& forall|k: int| #![trigger bad[k]] 0 <= k < bad.len() ==> bad[k].0 < pk.len() && bad[k].1 < pk.len()
        && inconsistent_at(pk, bad[k].0 as int, bad[k].1 as int)
    &&& forall|k: int, l: int| 0 <= k < l < bad.len() ==> pair_lt(#[trigger] bad[k], #[trigger] bad[l])
    &&& forall|a: usize, b: usize| a < pk.len() && b < pk.len() && inconsistent_at(pk, a as int, b as int)
        ==> #[trigger] bad.contains((a, b))
}

/// `orders` lists every `(from, to)` pair that `pk` orders, sorted by `to`
/// then `from`.
pub open spec fn lists_partial_orders(pk: Seq<Seq<i64>>, orders: Seq<(usize, usize)>) -> bool {
    &&& forall|k: int| #![trigger orders[k]] 0 <= k < orders.len() ==> orders[k].0 < pk.len() && orders[k].1 < pk.len()
        && ordered_before(pk, orders[k].0 as int, orders[k].1 as int)
    &&& forall|k: int, l: int| 0 <= k < l < orders.len() ==> partial_order_lt(#[trigger] orders[k], #[trigger] orders[l])
    &&& forall|f: usize, t: usize| f < pk.len() && t < pk.len() && ordered_before(pk, f as int, t as int)
        ==> #[trigger] orders.contains((f, t))
}

/// What the partial orders of a knowledge matrix are, entry by entry:
/// a stated path from `f` to `t` (`pk[t][f] == 1`) orders `f` before `t`;
/// "no path" from `t` to `f` (`pk[f][t] == 0`) orders `f` before `t` unless
/// the reverse "no path" is stated too, whichever index is larger; two
/// unknown entries order nothing; and every listed order comes from one of
/// the two statements.
pub open spec fn orders_follow_entries(pk: Seq<Seq<i64>>, orders: Seq<(usize, usize)>) -> bool {
    let n = pk.len();
    &&& forall|f: usize, t: usize| f < n && t < n && pk[t as int][f as int] == 1
        ==> #[trigger] orders.contains((f, t))
    &&& forall|f: usize, t: usize| f < n && t < n && f != t && pk[f as int][t as int] == 0
        && pk[t as int][f as int] < 0 ==> #[trigger] orders.contains((f, t))
    &&& forall|f: usize, t: usize| f < n && t < n && pk[f as int][t as int] == 0
        && pk[t as int][f as int] == 0 ==> !#[trigger] orders.contains((f, t))
    &&& forall|f: usize, t: usize| f < n && t < n && pk[f as int][t as int] < 0
        && pk[t as int][f as int] < 0 ==> !#[trigger] orders.contains((f, t))
    &&& forall|k: int| #![trigger orders[k]] 0 <= k < orders.len()
        ==> pk[orders[k].1 as int][orders[k].0 as int] == 1 || pk[orders[k].0 as int][orders[k].1 as int] == 0
}

/// The partial orders listed for a square matrix follow its entries as
/// `orders_follow_entries` says.
pub proof fn lemma_partial_orders_follow_entries(pk: Seq<Seq<i64>>, orders: Seq<(usize, usize)>)
    requires
        is_square(pk, pk.len()),
        lists_partial_orders(pk, orders),
    ensures
        orders_follow_entries(pk, orders),
{
    let n = pk.len();
    assert forall|f: usize, t: usize| f < n && t < n && pk[f as int][t as int] == 0
        && pk[t as int][f as int] == 0 implies !#[trigger] orders.contains((f, t)) by {
        if orders.contains((f, t)) {
            let k = choose|k: int| 0 <= k < orders.len() && orders[k] == (f, t);
            assert(ordered_before(pk, orders[k].0 as int, orders[k].1 as int));
        }
    }
    assert forall|f: usize, t: usize| f < n && t < n && pk[f as int][t as int] < 0
        && pk[t as int][f as int] < 0 implies !#[trigger] orders.contains((f, t)) by {
        if orders.contains((f, t)) {
            let k = choose|k: int| 0 <= k < orders.len() && orders[k] == (f, t);
            assert(ordered_before(pk, orders[k].0 as int, orders[k].1 as int));
        }
    }
}

/// A matrix is inconsistent exactly when it states, for some `a` and `b`,
/// both a path from `x_b` to `x_a` and one from `x_a` to `x_b`.
pub proof fn lemma_inconsistency_is_two_paths(pk: Seq<Seq<i64>>, n: nat)
    ensures
        (exists|a: usize, b: usize| a < n && b < n && inconsistent_at(pk, a as int, b as int))
            <==> (exists|a: usize, b: usize| a < n && b < n && #[trigger] pk[a as int][b as int] == 1
                && #[trigger] pk[b as int][a as int] == 1),
{
    if exists|a: usize, b: usize| a < n && b < n && inconsistent_at(pk, a as int, b as int) {
        let (a, b) = choose|a: usize, b: usize| a < n && b < n && inconsistent_at(pk, a as int, b as int);
        assert(pk[a as int][b as int] == 1 && pk[b as int][a as int] == 1);
    }
    if exists|a: usize, b: usize| a < n && b < n && #[trigger] pk[a as int][b as int] == 1
        && #[trigger] pk[b as int][a as int] == 1 {
        let (a, b) = choose|a: usize, b: usize| a < n && b < n && #[trigger] pk[a as int][b as int] == 1
            && #[trigger] pk[b as int][a as int] == 1;
        assert(inconsistent_at(pk, a as int, b as int));
    }
}

/// Every pair at which `pk` states paths in both directions.
fn inconsistencies(pk: &Vec<Vec<i64>>) -> (bad: Vec<(usize, usize)>)
    requires
        is_square(rows_view(pk@), pk@.len()),
    ensures
        lists_inconsistencies(rows_view(pk@), bad@),
{
    let ghost m = rows_view(pk@);
    let n = pk.len();
    let mut bad: Vec<(usize, usize)> = Vec::new();
    let mut a: usize = 0;
    while a < n
        invariant
            n == m.len(),
            a <= n,
            is_square(m, n as nat),
            m == rows_view(pk@),
            forall|k: int| #![trigger bad@[k]] 0 <= k < bad@.len() ==> bad@[k].0 < a && bad@[k].1 < n
                && inconsistent_at(m, bad@[k].0 as int, bad@[k].1 as int),
            forall|k: int, l: int| 0 <= k < l < bad@.len() ==> pair_lt(#[trigger] bad@[k], #[trigger] bad@[l]),
            forall|x: usize, y: usize| x < a && y < n && inconsistent_at(m, x as int, y as int)
                ==> #[trigger] bad@.contains((x, y)),
        decreases n - a,
    {
        let mut b: usize = 0;
        while b < n
            invariant
                n == m.len(),
                a < n,
                b <= n,
                is_square(m, n as nat),
                m == rows_view(pk@),
                forall|k: int| #![trigger bad@[k]] 0 <= k < bad@.len() ==> bad@[k].0 <= a && bad@[k].1 < n
                    && (bad@[k].0 < a || bad@[k].1 < b)
                    && inconsistent_at(m, bad@[k].0 as int, bad@[k].1 as int),
                forall|k: int, l: int| 0 <= k < l < bad@.len() ==> pair_lt(#[trigger] bad@[k], #[trigger] bad@[l]),
                forall|x: usize, y: usize| (x < a || (x == a && y < b)) && y < n && inconsistent_at(m, x as int, y as int)
                    ==> #[trigger] bad@.contains((x, y)),
            decreases n - b,
        {
            assert(m[a as int] == pk@[a as int]@);
            assert(m[b as int] == pk@[b as int]@);
            if pk[a][b] == 1 && pk[b][a] == 1 {
                let ghost old_bad = bad@;
                bad.push((a, b));
                proof {
                    assert forall|x: usize, y: usize| (x < a || (x == a && y < b + 1)) && y < n
                        && inconsistent_at(m, x as int, y as int) implies #[trigger] bad@.contains((x, y)) by {
                        if x == a && y == b {
                            assert(bad@[old_bad.len() as int] == (x, y));
                        } else {
                            assert(old_bad.contains((x, y)));
                            let k = choose|k: int| 0 <= k < old_bad.len() && old_bad[k] == (x, y);
                            assert(bad@[k] == (x, y));
                        }
                    }
                }
            } else {
                proof {
                    assert forall|x: usize, y: usize| (x < a || (x == a && y < b + 1)) && y < n
                        && inconsistent_at(m, x as int, y as int) implies #[trigger] bad@.contains((x, y)) by {
                        if x == a && y == b {
                        }
                    }
                }
            }
            b = b + 1;
        }
        a = a + 1;
    }
    bad
}

/// The partial orders: the `(from, to)` pairs that the knowledge matrix
/// orders, sorted by `to` then `from`; or, when the matrix states paths in both
/// directions between two variables, every such pair in row-major order.
pub fn extract_partial_orders(pk: &Vec<Vec<i64>>) -> (res: Result<Vec<(usize, usize)>, Vec<(usize, usize)>>)
    requires
        is_square(rows_view(pk@), pk@.len()),
    ensures
        match res {
            Ok(orders) => {
                &&& forall|a: usize, b: usize| a < pk@.len() && b < pk@.len()
                    ==> !inconsistent_at(rows_view(pk@), a as int, b as int)
                &&& lists_partial_orders(rows_view(pk@), orders@)
                &&& orders_follow_entries(rows_view(pk@), orders@)
            },
            Err(bad) => {
                &&& bad@.len() > 0
                &&& lists_inconsistencies(rows_view(pk@), bad@)
            },
        },
{
    let bad = inconsistencies(pk);
    let ghost m = rows_view(pk@);
    if bad.len() > 0 {
        return Err(bad);
    }
    proof {
        assert forall|a: usize, b: usize| a < pk@.len() && b < pk@.len()
            implies !inconsistent_at(m, a as int, b as int) by {
            if inconsistent_at(m, a as int, b as int) {
                assert(bad@.contains((a, b)));
            }
        }
    }
    let n = pk.len();
    let mut orders: Vec<(usize, usize)> = Vec::new();
    let mut t: usize = 0;
    while t < n
        invariant
            n == m.len(),
            t <= n,
            is_square(m, n as nat),
            m == rows_view(pk@),
            forall|k: int| #![trigger orders@[k]] 0 <= k < orders@.len() ==> orders@[k].1 < t && orders@[k].0 < n
                && ordered_before(m, orders@[k].0 as int, orders@[k].1 as int),
            forall|k: int, l: int| 0 <= k < l < orders@.len() ==> partial_order_lt(#[trigger] orders@[k], #[trigger] orders@[l]),
            forall|f: usize, y: usize| y < t && f < n && ordered_before(m, f as int, y as int)
                ==> #[trigger] orders@.contains((f, y)),
            forall|a: usize, b: usize| a < n && b < n ==> !inconsistent_at(m, a as int, b as int),
        decreases n - t,
    {
        let mut f: usize = 0;
        while f < n
            invariant
                n == m.len(),
                t < n,
                f <= n,
                is_square(m, n as nat),
                m == rows_view(pk@),
                forall|k: int| #![trigger orders@[k]] 0 <= k < orders@.len() ==> orders@[k].1 <= t && orders@[k].0 < n
                    && (orders@[k].1 < t || orders@[k].0 < f)
                    && ordered_before(m, orders@[k].0 as int, orders@[k].1 as int),
                forall|k: int, l: int| 0 <= k < l < orders@.len() ==> partial_order_lt(#[trigger] orders@[k], #[trigger] orders@[l]),
                forall|x: usize, y: usize| (y < t || (y == t && x < f)) && x < n && ordered_before(m, x as int, y as int)
                    ==> #[trigger] orders@.contains((x, y)),
            decreases n - f,
        {
            assert(m[t as int] == pk@[t as int]@);
            assert(m[f as int] == pk@[f as int]@);
            if pk[t][f] == 1 || (pk[f][t] == 0 && pk[t][f] != 0) {
                let ghost old_orders = orders@;
                orders.push((f, t));
                proof {
                    assert forall|x: usize, y: usize| (y < t || (y == t && x < f + 1)) && x < n
                        && ordered_before(m, x as int, y as int) implies #[trigger] orders@.contains((x, y)) by {
                        if x == f && y == t {
                            assert(orders@[old_orders.len() as int] == (x, y));
                        } else {
                            assert(old_orders.contains((x, y)));
                            let k = choose|k: int| 0 <= k < old_orders.len() && old_orders[k] == (x, y);
                            assert(orders@[k] == (x, y));
                        }
                    }
                }
            }
            f = f + 1;
        }
        t = t + 1;
    }
    proof {
        lemma_partial_orders_follow_entries(m, orders@);
    }
    Ok(orders)
}


/// `j` has no incoming edge, known or unknown, from the other members of `u`:
/// the matrix states "no path" from each of them.
pub open spec fn exogenous(pk: Seq<Seq<i64>>, u: Seq<usize>, j: usize) -> bool {
    forall|a: int| 0 <= a < u.len() && #[trigger] u[a] != j ==> pk[j as int][u[a] as int] == 0
}

/// The matrix states a path into `j` from another member of `u`.
pub open spec fn endogenous(pk: Seq<Seq<i64>>, u: Seq<usize>, j: usize) -> bool {
    exists|a: int| 0 <= a < u.len() && #[trigger] u[a] != j && pk[j as int][u[a] as int] > 0
}

/// The matrix states "no path" from `i` to every other member of `u`.
pub open spec fn sink(pk: Seq<Seq<i64>>, u: Seq<usize>, i: usize) -> bool {
    forall|a: int| 0 <= a < u.len() && #[trigger] u[a] != i ==> pk[u[a] as int][i as int] == 0
}

pub open spec fn exogenous_pred(pk: Seq<Seq<i64>>, u: Seq<usize>) -> spec_fn(usize) -> bool {
    |j: usize| exogenous(pk, u, j)
}

pub open spec fn interior_pred(pk: Seq<Seq<i64>>, u: Seq<usize>) -> spec_fn(usize) -> bool {
    |j: usize| !endogenous(pk, u, j) && !sink(pk, u, j)
}

/// The candidate set `Uc` of the soft search: the exogenous members of `u`,
/// or, when there are none, the members that are neither endogenous nor sinks;
/// in the order of `u`.
pub open spec fn soft_candidates(pk: Seq<Seq<i64>>, u: Seq<usize>) -> Seq<usize> {
    let exo = u.filter(exogenous_pred(pk, u));
    if exo.len() > 0 {
        exo
    } else {
        u.filter(interior_pred(pk, u))
    }
}

/// `i` is not a candidate and the matrix states "no path" from every candidate to it.
pub open spec fn unreached_pred(pk: Seq<Seq<i64>>, uc: Seq<usize>) -> spec_fn(usize) -> bool {
    |i: usize| !uc.contains(i) && forall|c: int| 0 <= c < uc.len() ==> pk[i as int][#[trigger] uc[c] as int] == 0
}

/// The set `Vj` of the soft search: members of `u` outside `uc` into which the
/// matrix states "no path" from every candidate; in the order of `u`.
pub open spec fn soft_unreached(pk: Seq<Seq<i64>>, u: Seq<usize>, uc: Seq<usize>) -> Seq<usize> {
    u.filter(unreached_pred(pk, uc))
}

/// Some member of `u` has "no path" stated from every other member into it.
pub open spec fn has_stated_exogenous(pk: Seq<Seq<i64>>, u: Seq<usize>) -> bool {
    exists|j: usize| #[trigger] u.contains(j) && forall|c: usize| #[trigger] u.contains(c) && c != j
        ==> pk[j as int][c as int] == 0
}

/// The soft candidate sets, entry by entry. When some member of `u` has
/// "no path" stated from every other member, `uc` holds exactly those
/// members. Otherwise `uc` holds the members with no stated path into them
/// from another member (no positive entry in their row) that are not sinks,
/// where a sink has "no path" (`0`) stated to it from every other member: an
/// unknown (negative) entry keeps a member from being a sink. `vj` holds the
/// members outside `uc` with "no path" stated from every member of `uc`.
pub open spec fn soft_sets_follow_entries(pk: Seq<Seq<i64>>, u: Seq<usize>, uc: Seq<usize>, vj: Seq<usize>) -> bool {
    &&& has_stated_exogenous(pk, u) ==> forall|i: usize| #[trigger] uc.contains(i) <==> (u.contains(i)
        && forall|c: usize| #[trigger] u.contains(c) && c != i ==> pk[i as int][c as int] == 0)
    &&& !has_stated_exogenous(pk, u) ==> forall|i: usize| #[trigger] uc.contains(i) <==> (u.contains(i)
        && (forall|c: usize| #[trigger] u.contains(c) && c != i ==> pk[i as int][c as int] <= 0)
        && (exists|r: usize| #[trigger] u.contains(r) && r != i && pk[r as int][i as int] != 0))
    &&& forall|i: usize| #[trigger] vj.contains(i) <==> (u.contains(i) && !uc.contains(i)
        && forall|c: usize| #[trigger] uc.contains(c) ==> pk[i as int][c as int] == 0)
}

proof fn lemma_exogenous_entries(pk: Seq<Seq<i64>>, u: Seq<usize>, j: usize)
    ensures
        exogenous(pk, u, j) <==> forall|c: usize| #[trigger] u.contains(c) && c != j ==> pk[j as int][c as int] == 0,
{
    if exogenous(pk, u, j) {
        assert forall|c: usize| #[trigger] u.contains(c) && c != j implies pk[j as int][c as int] == 0 by {
            let a = choose|a: int| 0 <= a < u.len() && u[a] == c;
        }
    }
    if forall|c: usize| #[trigger] u.contains(c) && c != j ==> pk[j as int][c as int] == 0 {
        assert forall|a: int| 0 <= a < u.len() && #[trigger] u[a] != j implies pk[j as int][u[a] as int] == 0 by {
            assert(u.contains(u[a]));
        }
    }
}

proof fn lemma_endogenous_entries(pk: Seq<Seq<i64>>, u: Seq<usize>, j: usize)
    ensures
        endogenous(pk, u, j) <==> exists|c: usize| #[trigger] u.contains(c) && c != j && pk[j as int][c as int] > 0,
{
    if endogenous(pk, u, j) {
        let a = choose|a: int| 0 <= a < u.len() && #[trigger] u[a] != j && pk[j as int][u[a] as int] > 0;
        assert(u.contains(u[a]));
    }
    if exists|c: usize| #[trigger] u.contains(c) && c != j && pk[j as int][c as int] > 0 {
        let c = choose|c: usize| #[trigger] u.contains(c) && c != j && pk[j as int][c as int] > 0;
        let a = choose|a: int| 0 <= a < u.len() && u[a] == c;
        assert(u[a] != j && pk[j as int][u[a] as int] > 0);
    }
}

proof fn lemma_sink_entries(pk: Seq<Seq<i64>>, u: Seq<usize>, i: usize)
    ensures
        sink(pk, u, i) <==> forall|r: usize| #[trigger] u.contains(r) && r != i ==> pk[r as int][i as int] == 0,
{
    if sink(pk, u, i) {
        assert forall|r: usize| #[trigger] u.contains(r) && r != i implies pk[r as int][i as int] == 0 by {
            let a = choose|a: int| 0 <= a < u.len() && u[a] == r;
        }
    }
    if forall|r: usize| #[trigger] u.contains(r) && r != i ==> pk[r as int][i as int] == 0 {
        assert forall|a: int| 0 <= a < u.len() && #[trigger] u[a] != i implies pk[u[a] as int][i as int] == 0 by {
            assert(u.contains(u[a]));
        }
    }
}

/// The soft candidate sets follow the matrix entries as
/// `soft_sets_follow_entries` says.
pub proof fn lemma_soft_sets_follow_entries(pk: Seq<Seq<i64>>, u: Seq<usize>, uc: Seq<usize>, vj: Seq<usize>)
    requires
        uc == soft_candidates(pk, u),
        vj == soft_unreached(pk, u, uc),
    ensures
        soft_sets_follow_entries(pk, u, uc, vj),
{
    let exo = u.filter(exogenous_pred(pk, u));
    assert forall|i: usize| #[trigger] exo.contains(i) <==> (u.contains(i)
        && forall|c: usize| #[trigger] u.contains(c) && c != i ==> pk[i as int][c as int] == 0) by {
        crate::util::lemma_filter_member(u, exogenous_pred(pk, u), i);
        lemma_exogenous_entries(pk, u, i);
    }
    if has_stated_exogenous(pk, u) {
        let j = choose|j: usize| #[trigger] u.contains(j) && forall|c: usize| #[trigger] u.contains(c) && c != j
            ==> pk[j as int][c as int] == 0;
        assert(exo.contains(j));
        assert(exo.len() > 0);
    } else {
        if exo.len() > 0 {
            assert(exo.contains(exo[0]));
        }
        assert(exo.len() == 0);
        assert forall|i: usize| #[trigger] uc.contains(i) <==> (u.contains(i)
            && (forall|c: usize| #[trigger] u.contains(c) && c != i ==> pk[i as int][c as int] <= 0)
            && (exists|r: usize| #[trigger] u.contains(r) && r != i && pk[r as int][i as int] != 0)) by {
            crate::util::lemma_filter_member(u, interior_pred(pk, u), i);
            lemma_endogenous_entries(pk, u, i);
            lemma_sink_entries(pk, u, i);
        }
    }
    assert forall|i: usize| #[trigger] vj.contains(i) <==> (u.contains(i) && !uc.contains(i)
        && forall|c: usize| #[trigger] uc.contains(c) ==> pk[i as int][c as int] == 0) by {
        crate::util::lemma_filter_member(u, unreached_pred(pk, uc), i);
        if forall|c: int| 0 <= c < uc.len() ==> pk[i as int][#[trigger] uc[c] as int] == 0 {
            assert forall|c: usize| #[trigger] uc.contains(c) implies pk[i as int][c as int] == 0 by {
                let k = choose|k: int| 0 <= k < uc.len() && uc[k] == c;
            }
        }
        if forall|c: usize| #[trigger] uc.contains(c) ==> pk[i as int][c as int] == 0 {
            assert forall|k: int| 0 <= k < uc.len() implies pk[i as int][#[trigger] uc[k] as int] == 0 by {
                assert(uc.contains(uc[k]));
            }
        }
    }
}

/// Every member of `u` indexes a row of an `n` by `n` matrix.
pub open spec fn indexes_within(u: Seq<usize>, n: nat) -> bool {
    forall|a: int| 0 <= a < u.len() ==> #[trigger] u[a] < n
}

fn is_exogenous(pk: &Vec<Vec<i64>>, u: &Vec<usize>, j: usize) -> (r: bool)
    requires
        is_square(rows_view(pk@), pk@.len()),
        indexes_within(u@, pk@.len() as nat),
        j < pk@.len(),
    ensures
        r == exogenous(rows_view(pk@), u@, j),
{
    let ghost m = rows_view(pk@);
    assert(m[j as int] == pk@[j as int]@);
    let mut a: usize = 0;
    while a < u.len()
        invariant
            a <= u@.len(),
            m == rows_view(pk@),
            is_square(m, pk@.len() as nat),
            indexes_within(u@, pk@.len() as nat),
            j < pk@.len(),
            m[j as int] == pk@[j as int]@,
            forall|b: int| 0 <= b < a && #[trigger] u@[b] != j ==> m[j as int][u@[b] as int] == 0,
        decreases u@.len() - a,
    {
        if u[a] != j && pk[j][u[a]] != 0 {
            return false;
        }
        a = a + 1;
    }
    true
}

fn is_endogenous(pk: &Vec<Vec<i64>>, u: &Vec<usize>, j: usize) -> (r: bool)
    requires
        is_square(rows_view(pk@), pk@.len()),
        indexes_within(u@, pk@.len() as nat),
        j < pk@.len(),
    ensures
        r == endogenous(rows_view(pk@), u@, j),
{
    let ghost m = rows_view(pk@);
    assert(m[j as int] == pk@[j as int]@);
    let mut a: usize = 0;
    while a < u.len()
        invariant
            a <= u@.len(),
            m == rows_view(pk@),
            is_square(m, pk@.len() as nat),
            indexes_within(u@, pk@.len() as nat),
            j < pk@.len(),
            m[j as int] == pk@[j as int]@,
            forall|b: int| 0 <= b < a && #[trigger] u@[b] != j ==> !(m[j as int][u@[b] as int] > 0),
        decreases u@.len() - a,
    {
        if u[a] != j && pk[j][u[a]] > 0 {
            return true;
        }
        a = a + 1;
    }
    false
}

fn is_sink(pk: &Vec<Vec<i64>>, u: &Vec<usize>, i: usize) -> (r: bool)
    requires
        is_square(rows_view(pk@), pk@.len()),
        indexes_within(u@, pk@.len() as nat),
        i < pk@.len(),
    ensures
        r == sink(rows_view(pk@), u@, i),
{
    let ghost m = rows_view(pk@);
    let mut a: usize = 0;
    while a < u.len()
        invariant
            a <= u@.len(),
            m == rows_view(pk@),
            is_square(m, pk@.len() as nat),
            indexes_within(u@, pk@.len() as nat),
            i < pk@.len(),
            forall|b: int| 0 <= b < a && #[trigger] u@[b] != i ==> m[u@[b] as int][i as int] == 0,
        decreases u@.len() - a,
    {
        assert(m[u@[a as int] as int] == pk@[u@[a as int] as int]@);
        if u[a] != i && pk[u[a]][i] != 0 {
            return false;
        }
        a = a + 1;
    }
    true
}

fn is_unreached(pk: &Vec<Vec<i64>>, uc: &Vec<usize>, i: usize) -> (r: bool)
    requires
        is_square(rows_view(pk@), pk@.len()),
        indexes_within(uc@, pk@.len() as nat),
        i < pk@.len(),
    ensures
        r == unreached_pred(rows_view(pk@), uc@)(i),
{
    let ghost m = rows_view(pk@);
    assert(m[i as int] == pk@[i as int]@);
    let mut a: usize = 0;
    while a < uc.len()
        invariant
            a <= uc@.len(),
            m == rows_view(pk@),
            is_square(m, pk@.len() as nat),
            indexes_within(uc@, pk@.len() as nat),
            i < pk@.len(),
            m[i as int] == pk@[i as int]@,
            forall|b: int| 0 <= b < a ==> #[trigger] uc@[b] != i,
            forall|b: int| 0 <= b < a ==> m[i as int][#[trigger] uc@[b] as int] == 0,
        decreases uc@.len() - a,
    {
        if uc[a] == i || pk[i][uc[a]] != 0 {
            return false;
        }
        a = a + 1;
    }
    true
}

/// The candidates under soft prior knowledge: the candidate set `Uc` and
/// the set `Vj` for the remaining variables `u`.
pub fn search_candidate_soft(u: &Vec<usize>, pk: &Vec<Vec<i64>>) -> (res: (Vec<usize>, Vec<usize>))
    requires
        is_square(rows_view(pk@), pk@.len()),
        indexes_within(u@, pk@.len() as nat),
    ensures
        res.0@ == soft_candidates(rows_view(pk@), u@),
        res.1@ == soft_unreached(rows_view(pk@), u@, res.0@),
        soft_sets_follow_entries(rows_view(pk@), u@, res.0@, res.1@),
{
    let ghost m = rows_view(pk@);
    let mut exo: Vec<usize> = Vec::new();
    let mut a: usize = 0;
    assert(u@.take(0) =~= Seq::<usize>::empty());
    proof { reveal_with_fuel(Seq::<_>::filter, 1); }
    while a < u.len()
        invariant
            a <= u@.len(),
            m == rows_view(pk@),
            is_square(m, pk@.len() as nat),
            indexes_within(u@, pk@.len() as nat),
            exo@ == u@.take(a as int).filter(exogenous_pred(m, u@)),
        decreases u@.len() - a,
    {
        assert(u@.take(a + 1) =~= u@.take(a as int).push(u@[a as int]));
        proof { u@.take(a as int).lemma_filter_push(u@[a as int], exogenous_pred(m, u@)); }
        if is_exogenous(pk, u, u[a]) {
            exo.push(u[a]);
        }
        a = a + 1;
    }
    assert(u@.take(u@.len() as int) =~= u@);
    let uc = if exo.len() > 0 {
        exo
    } else {
        let mut inner: Vec<usize> = Vec::new();
        let mut b: usize = 0;
        while b < u.len()
            invariant
                b <= u@.len(),
                m == rows_view(pk@),
                is_square(m, pk@.len() as nat),
                indexes_within(u@, pk@.len() as nat),
                inner@ == u@.take(b as int).filter(interior_pred(m, u@)),
            decreases u@.len() - b,
        {
            assert(u@.take(b + 1) =~= u@.take(b as int).push(u@[b as int]));
            proof { u@.take(b as int).lemma_filter_push(u@[b as int], interior_pred(m, u@)); }
            if !is_endogenous(pk, u, u[b]) && !is_sink(pk, u, u[b]) {
                inner.push(u[b]);
            }
            b = b + 1;
        }
        inner
    };
    proof {
        assert forall|k: int| 0 <= k < uc@.len() implies #[trigger] uc@[k] < pk@.len() by {
            if exo@.len() > 0 {
                assert(u@.filter(exogenous_pred(m, u@)).contains(uc@[k]));
                u@.lemma_filter_contains_rev(exogenous_pred(m, u@), uc@[k]);
            } else {
                assert(u@.filter(interior_pred(m, u@)).contains(uc@[k]));
                u@.lemma_filter_contains_rev(interior_pred(m, u@), uc@[k]);
            }
        }
    }
    let mut vj: Vec<usize> = Vec::new();
    let mut c: usize = 0;
    while c < u.len()
        invariant
            c <= u@.len(),
            m == rows_view(pk@),
            is_square(m, pk@.len() as nat),
            indexes_within(u@, pk@.len() as nat),
            indexes_within(uc@, pk@.len() as nat),
            vj@ == u@.take(c as int).filter(unreached_pred(m, uc@)),
        decreases u@.len() - c,
    {
        assert(u@.take(c + 1) =~= u@.take(c as int).push(u@[c as int]));
        proof { u@.take(c as int).lemma_filter_push(u@[c as int], unreached_pred(m, uc@)); }
        if is_unreached(pk, &uc, u[c]) {
            vj.push(u[c]);
        }
        c = c + 1;
    }
    assert(u@.take(u@.len() as int) =~= u@);
    proof {
        lemma_soft_sets_follow_entries(m, u@, uc@, vj@);
    }
    (uc, vj)
}


/// Why a prior-knowledge matrix was refused.
#[derive(Debug)]
pub enum PriorKnowledgeError {
    /// The matrix is not `n_features` by `n_features`.
    Shape,
    /// The matrix states paths in both directions at these pairs, listed in
    /// row-major order.
    Inconsistent(Vec<(usize, usize)>),
}

/// A prior-knowledge matrix validated for a fit: entry `[i][j]` is `1` when
/// `x_j` has a directed path to `x_i`, `0` when it has none, negative when
/// unknown, and any other positive value is kept as stated. In hard mode the
/// partial orders it implies are extracted once.
#[derive(Debug)]
pub struct PriorKnowledge {
    entries: Vec<Vec<i64>>,
    apply_softly: bool,
    partial_orders: Vec<(usize, usize)>,
}

impl PriorKnowledge {
    /// The knowledge matrix.
    pub closed spec fn matrix(&self) -> Seq<Seq<i64>> {
        rows_view(self.entries@)
    }

    /// Whether the knowledge is applied softly.
    pub closed spec fn softly(&self) -> bool {
        self.apply_softly
    }

    /// The extracted partial orders (empty in soft mode).
    pub closed spec fn orders(&self) -> Seq<(usize, usize)> {
        self.partial_orders@
    }

    /// The invariant every validated value keeps.
    pub open spec fn wf(&self) -> bool {
        &&& is_square(self.matrix(), self.matrix().len())
        &&& forall|a: usize, b: usize| a < self.matrix().len() && b < self.matrix().len()
            ==> !inconsistent_at(self.matrix(), a as int, b as int)
        &&& self.softly() ==> self.orders().len() == 0
        &&& !self.softly() ==> lists_partial_orders(self.matrix(), self.orders())
    }

    /// Validate `aknw` for a fit on `n_features` variables: it must be square
    /// of that size and free of contradicting path statements (in either
    /// mode); in hard mode the partial orders it implies are then extracted.
    pub fn new(aknw: Vec<Vec<i64>>, apply_softly: bool, n_features: usize) -> (res: Result<Self, PriorKnowledgeError>)
        ensures
            !is_square(rows_view(aknw@), n_features as nat) <==> res matches Err(PriorKnowledgeError::Shape),
            res matches Ok(p) ==> {
                &&& p.wf()
                &&& p.matrix() == rows_view(aknw@)
                &&& p.matrix().len() == n_features
                &&& p.softly() == apply_softly
                &&& !apply_softly ==> orders_follow_entries(p.matrix(), p.orders())
            },
            res matches Err(PriorKnowledgeError::Inconsistent(bad)) ==> {
                &&& is_square(rows_view(aknw@), n_features as nat)
                &&& bad@.len() > 0
                &&& lists_inconsistencies(rows_view(aknw@), bad@)
            },
            is_square(rows_view(aknw@), n_features as nat) ==> ((res is Err) <==> exists|a: usize, b: usize|
                a < n_features && b < n_features && inconsistent_at(rows_view(aknw@), a as int, b as int)),
            is_square(rows_view(aknw@), n_features as nat) ==> ((res is Err) <==> exists|a: usize, b: usize|
                a < n_features && b < n_features && #[trigger] rows_view(aknw@)[a as int][b as int] == 1
                    && #[trigger] rows_view(aknw@)[b as int][a as int] == 1),
            res matches Err(PriorKnowledgeError::Inconsistent(bad)) ==> forall|k: int| 0 <= k < bad@.len()
                ==> rows_view(aknw@)[#[trigger] bad@[k].0 as int][bad@[k].1 as int] == 1
                    && rows_view(aknw@)[bad@[k].1 as int][bad@[k].0 as int] == 1,
    {
        let ghost m = rows_view(aknw@);
        if aknw.len() != n_features {
            return Err(PriorKnowledgeError::Shape);
        }
        let mut i: usize = 0;
        while i < aknw.len()
            invariant
                i <= aknw@.len(),
                aknw@.len() == n_features,
                m == rows_view(aknw@),
                forall|k: int| 0 <= k < i ==> #[trigger] m[k].len() == n_features,
            decreases aknw@.len() - i,
        {
            assert(m[i as int] == aknw@[i as int]@);
            if aknw[i].len() != n_features {
                return Err(PriorKnowledgeError::Shape);
            }
            i = i + 1;
        }
        proof {
            lemma_inconsistency_is_two_paths(m, n_features as nat);
        }
        if apply_softly {
            let bad = inconsistencies(&aknw);
            if bad.len() > 0 {
                proof {
                    let k = 0int;
                    assert(inconsistent_at(m, bad@[k].0 as int, bad@[k].1 as int));
                }
                return Err(PriorKnowledgeError::Inconsistent(bad));
            }
            proof {
                assert forall|a: usize, b: usize| a < n_features && b < n_features
                    implies !inconsistent_at(m, a as int, b as int) by {
                    if inconsistent_at(m, a as int, b as int) {
                        assert(bad@.contains((a, b)));
                    }
                }
            }
            return Ok(PriorKnowledge { entries: aknw, apply_softly, partial_orders: Vec::new() });
        }
        match extract_partial_orders(&aknw) {
            Ok(orders) => Ok(PriorKnowledge { entries: aknw, apply_softly, partial_orders: orders }),
            Err(bad) => {
                proof {
                    let k = 0int;
                    assert(inconsistent_at(m, bad@[k].0 as int, bad@[k].1 as int));
                }
                Err(PriorKnowledgeError::Inconsistent(bad))
            },
        }
    }

    /// The knowledge matrix.
    pub fn entries(&self) -> (r: &Vec<Vec<i64>>)
        ensures
            rows_view(r@) == self.matrix(),
    {
        &self.entries
    }

    /// Whether the knowledge is applied softly.
    pub fn is_soft(&self) -> (r: bool)
        ensures
            r == self.softly(),
    {
        self.apply_softly
    }

    /// The extracted partial orders as `(from, to)` pairs.
    pub fn partial_orders(&self) -> (r: &Vec<(usize, usize)>)
        ensures
            r@ == self.orders(),
    {
        &self.partial_orders
    }
}


/// `order` places the `from` variable of every pair before its `to` variable
/// whenever the `to` variable has been placed.
pub open spec fn respects_orders(order: Seq<usize>, po: Seq<(usize, usize)>) -> bool {
    forall|k: int, j: int|
        #![trigger po[k], order[j]]
        0 <= k < po.len() && 0 <= j < order.len() && order[j] == po[k].1
            ==> exists|i: int| 0 <= i < j && #[trigger] order[i] == po[k].0
}

/// `i` is the `to` variable of some pair of `po`.
pub open spec fn is_target(po: Seq<(usize, usize)>, i: usize) -> bool {
    exists|k: int| 0 <= k < po.len() && #[trigger] po[k].1 == i
}

pub open spec fn untargeted_pred(po: Seq<(usize, usize)>) -> spec_fn(usize) -> bool {
    |i: usize| !is_target(po, i)
}

pub open spec fn neq_pred(m: usize) -> spec_fn(usize) -> bool {
    |x: usize| x != m
}

pub open spec fn from_other_pred(m: usize) -> spec_fn((usize, usize)) -> bool {
    |p: (usize, usize)| p.0 != m
}

/// `s` is strictly increasing.
pub open spec fn strictly_increasing(s: Seq<usize>) -> bool {
    forall|a: int, b: int| 0 <= a < b < s.len() ==> #[trigger] s[a] < #[trigger] s[b]
}

/// `s` holds no value twice.
pub open spec fn distinct(s: Seq<usize>) -> bool {
    forall|a: int, b: int| 0 <= a < s.len() && 0 <= b < s.len() && a != b ==> #[trigger] s[a] != #[trigger] s[b]
}

/// `s` lists each of `0..n` exactly once.
pub open spec fn is_permutation(s: Seq<usize>, n: nat) -> bool {
    &&& s.len() == n
    &&& distinct(s)
    &&& forall|a: int| 0 <= a < s.len() ==> #[trigger] s[a] < n
    &&& forall|x: usize| x < n ==> #[trigger] s.contains(x)
}

/// `i` may not be placed yet: some partial order still to be honoured (its
/// `from` variable is among the `remaining` ones) has `i` as its `to`.
pub open spec fn blocked(orders: Seq<(usize, usize)>, remaining: Seq<usize>, i: usize) -> bool {
    exists|k: int| 0 <= k < orders.len() && #[trigger] orders[k].1 == i && remaining.contains(orders[k].0)
}

pub open spec fn unblocked_pred(orders: Seq<(usize, usize)>, remaining: Seq<usize>) -> spec_fn(usize) -> bool {
    |i: usize| !blocked(orders, remaining, i)
}

/// A filter by a predicate that every element passes keeps the sequence.
pub proof fn lemma_filter_all_pass(u: Seq<usize>, pred: spec_fn(usize) -> bool)
    requires
        forall|a: int| 0 <= a < u.len() ==> pred(#[trigger] u[a]),
    ensures
        u.filter(pred) == u,
    decreases u.len(),
{
    reveal_with_fuel(Seq::<_>::filter, 1);
    if u.len() > 0 {
        let d = u.drop_last();
        assert forall|a: int| 0 <= a < d.len() implies pred(#[trigger] d[a]) by {
            assert(d[a] == u[a]);
        }
        lemma_filter_all_pass(d, pred);
        assert(u =~= d.push(u.last()));
    } else {
        assert(u =~= Seq::<usize>::empty());
    }
}

/// Bookkeeping of the DirectLiNGAM causal-order search: the variables still to
/// be placed (`U`, in increasing order), the order found so far (`K`), and, in
/// hard mode, the partial orders whose `from` variable is not yet placed.
pub struct OrderSearch {
    n: usize,
    remaining: Vec<usize>,
    placed: Vec<usize>,
    hard: bool,
    soft: bool,
    pending: Vec<(usize, usize)>,
    knowledge: Vec<Vec<i64>>,
    initial: Ghost<Seq<(usize, usize)>>,
}

impl OrderSearch {
    /// Number of variables.
    pub closed spec fn size(&self) -> nat {
        self.n as nat
    }

    /// The variables not yet placed, in increasing order.
    pub closed spec fn remaining_view(&self) -> Seq<usize> {
        self.remaining@
    }

    /// The causal order found so far.
    pub closed spec fn placed_view(&self) -> Seq<usize> {
        self.placed@
    }

    /// The partial orders the search started with (empty unless hard).
    pub closed spec fn initial_orders(&self) -> Seq<(usize, usize)> {
        self.initial@
    }

    /// Whether the search applies prior knowledge softly.
    pub closed spec fn is_soft(&self) -> bool {
        self.soft
    }

    /// The knowledge matrix in soft mode.
    pub closed spec fn soft_knowledge(&self) -> Seq<Seq<i64>> {
        rows_view(self.knowledge@)
    }

    /// The candidate set `Uc` and the set `Vj` for the next placement.
    pub closed spec fn candidate_view(&self) -> (Seq<usize>, Seq<usize>) {
        if self.soft {
            let uc = soft_candidates(rows_view(self.knowledge@), self.remaining@);
            (uc, soft_unreached(rows_view(self.knowledge@), self.remaining@, uc))
        } else if self.hard {
            (self.remaining@.filter(untargeted_pred(self.pending@)), Seq::empty())
        } else {
            (self.remaining@, Seq::empty())
        }
    }

    /// The bookkeeping invariant.
    pub closed spec fn wf(&self) -> bool {
        let n = self.n as nat;
        &&& strictly_increasing(self.remaining@)
        &&& self.remaining@.len() + self.placed@.len() == n
        &&& forall|a: int| 0 <= a < self.remaining@.len() ==> #[trigger] self.remaining@[a] < n
        &&& distinct(self.placed@)
        &&& forall|a: int| 0 <= a < self.placed@.len() ==> #[trigger] self.placed@[a] < n
        &&& forall|a: int, b: int| 0 <= a < self.remaining@.len() && 0 <= b < self.placed@.len()
            ==> #[trigger] self.remaining@[a] != #[trigger] self.placed@[b]
        &&& forall|x: usize| x < n ==> #[trigger] self.remaining@.contains(x) || self.placed@.contains(x)
        &&& !(self.hard && self.soft)
        &&& self.soft ==> is_square(rows_view(self.knowledge@), n)
        &&& !self.hard ==> self.initial@.len() == 0 && self.pending@.len() == 0
        &&& forall|k: int| #![trigger self.initial@[k]] 0 <= k < self.initial@.len()
            ==> self.initial@[k].0 < n && self.initial@[k].1 < n && self.initial@[k].0 != self.initial@[k].1
        &&& forall|k: int| #![trigger self.initial@[k]] 0 <= k < self.initial@.len()
            && self.remaining@.contains(self.initial@[k].0) ==> self.pending@.contains(self.initial@[k])
        &&& forall|k: int| #![trigger self.pending@[k]] 0 <= k < self.pending@.len()
            ==> self.remaining@.contains(self.pending@[k].0) && self.initial@.contains(self.pending@[k])
        &&& respects_orders(self.placed@, self.initial@)
    }

    /// Start a search over `n` variables, with the given prior knowledge.
    pub fn new(n: usize, prior: Option<&PriorKnowledge>) -> (r: Self)
        requires
            prior matches Some(p) ==> p.wf() && p.matrix().len() == n,
        ensures
            r.wf(),
            r.size() == n,
            r.placed_view().len() == 0,
            r.remaining_view() == Seq::new(n as nat, |i: int| i as usize),
            r.is_soft() == (prior matches Some(p) && p.softly()),
            r.is_soft() ==> (prior matches Some(p) && r.soft_knowledge() == p.matrix()),
            r.initial_orders() == (match prior {
                Some(p) => if p.softly() { Seq::empty() } else { p.orders() },
                None => Seq::empty(),
            }),
    {
        let mut remaining: Vec<usize> = Vec::new();
        let mut i: usize = 0;
        while i < n
            invariant
                i <= n,
                remaining@ == Seq::new(i as nat, |k: int| k as usize),
            decreases n - i,
        {
            remaining.push(i);
            i = i + 1;
        }
        let ghost rem = remaining@;
        assert forall|x: usize| x < n implies #[trigger] rem.contains(x) by {
            assert(rem[x as int] == x);
        }
        match prior {
            None => OrderSearch {
                n,
                remaining,
                placed: Vec::new(),
                hard: false,
                soft: false,
                pending: Vec::new(),
                knowledge: Vec::new(),
                initial: Ghost(Seq::empty()),
            },
            Some(p) => {
                if p.is_soft() {
                    let knowledge = copy_matrix(p.entries());
                    OrderSearch {
                        n,
                        remaining,
                        placed: Vec::new(),
                        hard: false,
                        soft: true,
                        pending: Vec::new(),
                        knowledge,
                        initial: Ghost(Seq::empty()),
                    }
                } else {
                    let pending = copy_pairs(p.partial_orders());
                    let ghost po = pending@;
                    proof {
                        assert forall|k: int| #![trigger po[k]] 0 <= k < po.len()
                            implies po[k].0 != po[k].1 by {
                            if po[k].0 == po[k].1 {
                                assert(ordered_before(p.matrix(), po[k].0 as int, po[k].1 as int));
                                assert(!inconsistent_at(p.matrix(), po[k].0 as int, po[k].0 as int));
                            }
                        }
                        assert forall|k: int| #![trigger po[k]] 0 <= k < po.len()
                            implies rem.contains(po[k].0) by {
                            assert(rem[po[k].0 as int] == po[k].0);
                        }
                        assert forall|k: int| #![trigger po[k]] 0 <= k < po.len() && rem.contains(po[k].0)
                            implies po.contains(po[k]) by {
                            assert(po[k] == po[k]);
                        }
                    }
                    OrderSearch {
                        n,
                        remaining,
                        placed: Vec::new(),
                        hard: true,
                        soft: false,
                        pending,
                        knowledge: Vec::new(),
                        initial: Ghost(po),
                    }
                }
            },
        }
    }

    /// The variables not yet placed, in increasing order.
    pub fn remaining(&self) -> (r: &Vec<usize>)
        ensures
            r@ == self.remaining_view(),
    {
        &self.remaining
    }

    /// The causal order found so far.
    pub fn placed(&self) -> (r: &Vec<usize>)
        ensures
            r@ == self.placed_view(),
    {
        &self.placed
    }

    /// The candidate set `Uc`, from which the next variable
    /// is chosen, and the set `Vj` that the soft search treats specially.
    pub fn candidates(&self) -> (r: (Vec<usize>, Vec<usize>))
        requires
            self.wf(),
        ensures
            r.0@ == self.candidate_view().0,
            r.1@ == self.candidate_view().1,
            forall|a: int| 0 <= a < r.0@.len() ==> #[trigger] self.remaining_view().contains(r.0@[a]),
            !self.is_soft() ==> r.0@ == self.remaining_view().filter(
                unblocked_pred(self.initial_orders(), self.remaining_view())) && r.1@.len() == 0,
            self.is_soft() ==> r.0@ == soft_candidates(self.soft_knowledge(), self.remaining_view())
                && r.1@ == soft_unreached(self.soft_knowledge(), self.remaining_view(), r.0@)
                && soft_sets_follow_entries(self.soft_knowledge(), self.remaining_view(), r.0@, r.1@),
    {
        proof {
            let u = self.remaining@;
            let init = self.initial@;
            let pend = self.pending@;
            if !self.soft {
                assert forall|i: usize| #[trigger] untargeted_pred(pend)(i) == unblocked_pred(init, u)(i) by {
                    if is_target(pend, i) {
                        let k = choose|k: int| 0 <= k < pend.len() && #[trigger] pend[k].1 == i;
                        assert(init.contains(pend[k]));
                        let j = choose|j: int| 0 <= j < init.len() && init[j] == pend[k];
                        assert(init[j].1 == i && u.contains(init[j].0));
                    }
                    if blocked(init, u, i) {
                        let k = choose|k: int| 0 <= k < init.len() && #[trigger] init[k].1 == i && u.contains(init[k].0);
                        assert(pend.contains(init[k]));
                        let j = choose|j: int| 0 <= j < pend.len() && pend[j] == init[k];
                        assert(pend[j].1 == i);
                    }
                }
                assert(untargeted_pred(pend) =~= unblocked_pred(init, u));
                if !self.hard {
                    assert forall|a: int| 0 <= a < u.len() implies unblocked_pred(init, u)(#[trigger] u[a]) by {}
                    lemma_filter_all_pass(u, unblocked_pred(init, u));
                }
            }
        }
        if self.soft {
            let r = search_candidate_soft(&self.remaining, &self.knowledge);
            proof {
                let u = self.remaining@;
                let m = rows_view(self.knowledge@);
                assert forall|a: int| 0 <= a < r.0@.len() implies #[trigger] u.contains(r.0@[a]) by {
                    let exo = u.filter(exogenous_pred(m, u));
                    if exo.len() > 0 {
                        assert(exo.contains(r.0@[a]));
                        u.lemma_filter_contains_rev(exogenous_pred(m, u), r.0@[a]);
                    } else {
                        assert(u.filter(interior_pred(m, u)).contains(r.0@[a]));
                        u.lemma_filter_contains_rev(interior_pred(m, u), r.0@[a]);
                    }
                }
            }
            r
        } else if self.hard {
            let mut uc: Vec<usize> = Vec::new();
            let mut a: usize = 0;
            let ghost u = self.remaining@;
            let ghost pred = untargeted_pred(self.pending@);
            assert(u.take(0) =~= Seq::<usize>::empty());
            proof { reveal_with_fuel(Seq::<_>::filter, 1); }
            while a < self.remaining.len()
                invariant
                    a <= u.len(),
                    u == self.remaining@,
                    pred == untargeted_pred(self.pending@),
                    uc@ == u.take(a as int).filter(pred),
                decreases u.len() - a,
            {
                assert(u.take(a + 1) =~= u.take(a as int).push(u[a as int]));
                proof { u.take(a as int).lemma_filter_push(u[a as int], pred); }
                if !targeted(&self.pending, self.remaining[a]) {
                    uc.push(self.remaining[a]);
                }
                a = a + 1;
            }
            assert(u.take(u.len() as int) =~= u);
            proof {
                assert forall|k: int| 0 <= k < uc@.len() implies #[trigger] u.contains(uc@[k]) by {
                    assert(u.filter(pred).contains(uc@[k]));
                    u.lemma_filter_contains_rev(pred, uc@[k]);
                }
            }
            (uc, Vec::new())
        } else {
            let uc = copy_indices(&self.remaining);
            proof {
                assert forall|k: int| 0 <= k < uc@.len() implies #[trigger] self.remaining@.contains(uc@[k]) by {
                    assert(self.remaining@[k] == uc@[k]);
                }
            }
            (uc, Vec::new())
        }
    }

    /// Place `m`, a member of the candidate set: append it to the causal
    /// order, drop it from the remaining variables, and in hard mode drop the
    /// partial orders that start at it.
    pub fn place(&mut self, m: usize)
        requires
            old(self).wf(),
            old(self).candidate_view().0.contains(m),
        ensures
            final(self).wf(),
            final(self).size() == old(self).size(),
            final(self).placed_view() == old(self).placed_view().push(m),
            final(self).remaining_view() == old(self).remaining_view().filter(neq_pred(m)),
            final(self).remaining_view().len() + 1 == old(self).remaining_view().len(),
            final(self).initial_orders() == old(self).initial_orders(),
            final(self).is_soft() == old(self).is_soft(),
            final(self).soft_knowledge() == old(self).soft_knowledge(),
    {
        let ghost u = self.remaining@;
        let ghost pl = self.placed@;
        let ghost init = self.initial@;
        let ghost pend = self.pending@;
        proof {
            let uc = self.candidate_view().0;
            let k = choose|k: int| 0 <= k < uc.len() && uc[k] == m;
            if self.soft {
                let kn = rows_view(self.knowledge@);
                let exo = u.filter(exogenous_pred(kn, u));
                if exo.len() > 0 {
                    u.lemma_filter_contains_rev(exogenous_pred(kn, u), m);
                } else {
                    u.lemma_filter_contains_rev(interior_pred(kn, u), m);
                }
            } else if self.hard {
                u.lemma_filter_contains_rev(untargeted_pred(pend), m);
                u.lemma_filter_pred(untargeted_pred(pend), k);
            } else {
                assert(u.contains(uc[k]));
            }
        }
        let mut pos: usize = 0;
        while pos < self.remaining.len() && self.remaining[pos] != m
            invariant
                u == self.remaining@,
                u.contains(m),
                pos <= u.len(),
                forall|a: int| 0 <= a < pos ==> #[trigger] u[a] != m,
            decreases u.len() - pos,
        {
            pos = pos + 1;
        }
        proof {
            if pos >= u.len() {
                let a = choose|a: int| 0 <= a < u.len() && u[a] == m;
                assert(u[a] != m);
            }
        }
        self.remaining.remove(pos);
        self.placed.push(m);
        if self.hard {
            let mut kept: Vec<(usize, usize)> = Vec::new();
            let mut k: usize = 0;
            assert(pend.take(0) =~= Seq::<(usize, usize)>::empty());
            proof { reveal_with_fuel(Seq::<_>::filter, 1); }
            while k < self.pending.len()
                invariant
                    k <= pend.len(),
                    pend == self.pending@,
                    kept@ == pend.take(k as int).filter(from_other_pred(m)),
                decreases pend.len() - k,
            {
                assert(pend.take(k + 1) =~= pend.take(k as int).push(pend[k as int]));
                proof { pend.take(k as int).lemma_filter_push(pend[k as int], from_other_pred(m)); }
                if self.pending[k].0 != m {
                    kept.push(self.pending[k]);
                }
                k = k + 1;
            }
            assert(pend.take(pend.len() as int) =~= pend);
            self.pending = kept;
        }
        proof {
            let nu = self.remaining@;
            let np = self.placed@;
            assert(nu =~= u.remove(pos as int));
            assert(u.filter(neq_pred(m)) =~= nu) by {
                lemma_filter_remove_unique(u, pos as int);
            }
            assert forall|x: usize| x < self.n implies #[trigger] nu.contains(x) || np.contains(x) by {
                if x == m {
                    assert(np[pl.len() as int] == m);
                } else if u.contains(x) {
                    let a = choose|a: int| 0 <= a < u.len() && u[a] == x;
                    if a < pos {
                        assert(nu[a] == x);
                    } else {
                        assert(a != pos);
                        assert(nu[a - 1] == x);
                    }
                } else {
                    assert(pl.contains(x));
                    let b = choose|b: int| 0 <= b < pl.len() && pl[b] == x;
                    assert(np[b] == x);
                }
            }
            assert forall|a: int, b: int| 0 <= a < nu.len() && 0 <= b < np.len()
                implies #[trigger] nu[a] != #[trigger] np[b] by {
                if a < pos {
                    assert(nu[a] == u[a]);
                } else {
                    assert(nu[a] == u[a + 1]);
                }
                if b == pl.len() {
                    assert(np[b] == m);
                } else {
                    assert(np[b] == pl[b]);
                }
            }
            assert(strictly_increasing(nu)) by {
                assert forall|a: int, b: int| 0 <= a < b < nu.len() implies #[trigger] nu[a] < #[trigger] nu[b] by {
                    let a2 = if a < pos { a } else { a + 1 };
                    let b2 = if b < pos { b } else { b + 1 };
                    assert(nu[a] == u[a2] && nu[b] == u[b2]);
                }
            }
            assert(distinct(np)) by {
                assert forall|a: int, b: int| 0 <= a < np.len() && 0 <= b < np.len() && a != b
                    implies #[trigger] np[a] != #[trigger] np[b] by {
                    if a == pl.len() {
                        assert(u[pos as int] == m);
                        assert(np[b] == pl[b]);
                    } else if b == pl.len() {
                        assert(u[pos as int] == m);
                        assert(np[a] == pl[a]);
                    }
                }
            }
            assert forall|a: int| 0 <= a < nu.len() implies #[trigger] nu[a] < self.n by {
                if a < pos {
                    assert(nu[a] == u[a]);
                } else {
                    assert(nu[a] == u[a + 1]);
                }
            }
            assert forall|a: int| 0 <= a < np.len() implies #[trigger] np[a] < self.n by {
                if a < pl.len() {
                    assert(np[a] == pl[a]);
                }
            }
            let npend = self.pending@;
            if self.hard {
                assert forall|k: int| #![trigger init[k]] 0 <= k < init.len() && nu.contains(init[k].0)
                    implies npend.contains(init[k]) by {
                    let a = choose|a: int| 0 <= a < nu.len() && nu[a] == init[k].0;
                    if a < pos {
                        assert(u[a] == init[k].0);
                    } else {
                        assert(u[a + 1] == init[k].0);
                    }
                    assert(u.contains(init[k].0));
                    assert(init[k].0 != m);
                    assert(pend.contains(init[k]));
                    let q = choose|q: int| 0 <= q < pend.len() && pend[q] == init[k];
                    pend.lemma_filter_contains(from_other_pred(m), q);
                }
                assert forall|k: int| #![trigger npend[k]] 0 <= k < npend.len()
                    implies nu.contains(npend[k].0) && init.contains(npend[k]) by {
                    pend.lemma_filter_pred(from_other_pred(m), k);
                    pend.lemma_filter_contains_rev(from_other_pred(m), npend[k]);
                    let q = choose|q: int| 0 <= q < pend.len() && pend[q] == npend[k];
                    assert(init.contains(pend[q]));
                    assert(u.contains(pend[q].0));
                    let a = choose|a: int| 0 <= a < u.len() && u[a] == pend[q].0;
                    assert(a != pos);
                    if a < pos {
                        assert(nu[a] == u[a]);
                    } else {
                        assert(nu[a - 1] == u[a]);
                    }
                }
            } else {
                assert(init.len() == 0);
            }
            assert(respects_orders(np, init)) by {
                assert forall|k: int, j: int|
                    #![trigger init[k], np[j]]
                    0 <= k < init.len() && 0 <= j < np.len() && np[j] == init[k].1
                    implies exists|i: int| 0 <= i < j && #[trigger] np[i] == init[k].0 by {
                    if j < pl.len() {
                        assert(pl[j] == np[j]);
                        let i = choose|i: int| 0 <= i < j && #[trigger] pl[i] == init[k].0;
                        assert(np[i] == pl[i]);
                    } else {
                        // `m` is the target of an initial pair: its source is already placed.
                        assert(self.hard);
                        let src = init[k].0;
                        if u.contains(src) {
                            assert(pend.contains(init[k]));
                            let q = choose|q: int| 0 <= q < pend.len() && pend[q] == init[k];
                            assert(pend[q].1 == m);
                            assert(is_target(pend, m));
                            let c = choose|c: int| 0 <= c < u.len() && u.filter(untargeted_pred(pend))[c] == m;
                            u.lemma_filter_pred(untargeted_pred(pend), c);
                        }
                        assert(src < self.n);
                        assert(u.contains(src) || pl.contains(src));
                        let i = choose|i: int| 0 <= i < pl.len() && pl[i] == src;
                        assert(np[i] == src);
                    }
                }
            }
        }
    }
}

/// Removing the one occurrence of a value from a strictly increasing sequence
/// is filtering that value out.
pub proof fn lemma_filter_remove_unique(u: Seq<usize>, pos: int)
    requires
        strictly_increasing(u),
        0 <= pos < u.len(),
    ensures
        u.filter(neq_pred(u[pos])) == u.remove(pos),
    decreases u.len(),
{
    let m = u[pos];
    reveal_with_fuel(Seq::<_>::filter, 1);
    if pos == u.len() - 1 {
        assert(u.drop_last() =~= u.remove(pos));
        assert forall|a: int| 0 <= a < u.drop_last().len() implies #[trigger] u.drop_last()[a] != m by {
            assert(u[a] < u[pos]);
        }
        lemma_filter_keeps_all(u.drop_last(), m);
    } else {
        let d = u.drop_last();
        assert(strictly_increasing(d)) by {
            assert forall|a: int, b: int| 0 <= a < b < d.len() implies #[trigger] d[a] < #[trigger] d[b] by {
                assert(d[a] == u[a] && d[b] == u[b]);
            }
        }
        lemma_filter_remove_unique(d, pos);
        assert(d[pos] == m);
        assert(u.last() != m) by {
            assert(u[pos] < u[u.len() - 1]);
        }
        assert(u.remove(pos) =~= d.remove(pos).push(u.last()));
    }
}

/// Filtering out a value that does not occur keeps the sequence.
pub proof fn lemma_filter_keeps_all(u: Seq<usize>, m: usize)
    requires
        forall|a: int| 0 <= a < u.len() ==> #[trigger] u[a] != m,
    ensures
        u.filter(neq_pred(m)) == u,
    decreases u.len(),
{
    reveal_with_fuel(Seq::<_>::filter, 1);
    if u.len() > 0 {
        let d = u.drop_last();
        assert forall|a: int| 0 <= a < d.len() implies #[trigger] d[a] != m by {
            assert(d[a] == u[a]);
        }
        lemma_filter_keeps_all(d, m);
        assert(u =~= d.push(u.last()));
    } else {
        assert(u =~= Seq::<usize>::empty());
    }
}

/// Every state of the search places the `from` variable of each hard partial
/// order before its `to` variable, once the latter is placed.
pub proof fn lemma_order_respects_prior_knowledge(s: OrderSearch)
    requires
        s.wf(),
    ensures
        respects_orders(s.placed_view(), s.initial_orders()),
{
}

/// The placed and the remaining variables always split `0..n` between them.
pub proof fn lemma_placed_and_remaining_partition(s: OrderSearch)
    requires
        s.wf(),
    ensures
        s.placed_view().len() + s.remaining_view().len() == s.size(),
        distinct(s.placed_view()),
        strictly_increasing(s.remaining_view()),
        forall|x: usize| x < s.size() ==> (#[trigger] s.placed_view().contains(x) <==> !s.remaining_view().contains(x)),
{
    assert forall|x: usize| x < s.size() implies (#[trigger] s.placed_view().contains(x) <==> !s.remaining_view().contains(x)) by {
        if s.placed_view().contains(x) && s.remaining_view().contains(x) {
            let a = choose|a: int| 0 <= a < s.remaining_view().len() && s.remaining_view()[a] == x;
            let b = choose|b: int| 0 <= b < s.placed_view().len() && s.placed_view()[b] == x;
            assert(s.remaining@[a] != s.placed@[b]);
        }
    }
}

/// Once no variable remains, the causal order lists every variable exactly once.
pub proof fn lemma_complete_order_is_permutation(s: OrderSearch)
    requires
        s.wf(),
        s.remaining_view().len() == 0,
    ensures
        is_permutation(s.placed_view(), s.size()),
{
    assert forall|x: usize| x < s.size() implies #[trigger] s.placed_view().contains(x) by {
        assert(s.remaining@.contains(x) || s.placed@.contains(x));
    }
}

fn targeted(po: &Vec<(usize, usize)>, i: usize) -> (r: bool)
    ensures
        r == is_target(po@, i),
{
    let mut k: usize = 0;
    while k < po.len()
        invariant
            k <= po@.len(),
            forall|q: int| 0 <= q < k ==> #[trigger] po@[q].1 != i,
        decreases po@.len() - k,
    {
        if po[k].1 == i {
            return true;
        }
        k = k + 1;
    }
    false
}

/// Whether `x` occurs in `v`.
pub fn index_in(v: &Vec<usize>, x: usize) -> (r: bool)
    ensures
        r == v@.contains(x),
{
    let mut a: usize = 0;
    while a < v.len()
        invariant
            a <= v@.len(),
            forall|b: int| 0 <= b < a ==> #[trigger] v@[b] != x,
        decreases v@.len() - a,
    {
        if v[a] == x {
            assert(v@[a as int] == x);
            return true;
        }
        a = a + 1;
    }
    false
}

/// A copy of an index list.
pub fn copy_indices(v: &Vec<usize>) -> (r: Vec<usize>)
    ensures
        r@ == v@,
{
    let mut r: Vec<usize> = Vec::new();
    let mut i: usize = 0;
    while i < v.len()
        invariant
            i <= v@.len(),
            r@ == v@.take(i as int),
        decreases v@.len() - i,
    {
        r.push(v[i]);
        i = i + 1;
        assert(r@ =~= v@.take(i as int));
    }
    assert(v@.take(v@.len() as int) =~= v@);
    r
}

fn copy_pairs(v: &Vec<(usize, usize)>) -> (r: Vec<(usize, usize)>)
    ensures
        r@ == v@,
{
    let mut r: Vec<(usize, usize)> = Vec::new();
    let mut i: usize = 0;
    while i < v.len()
        invariant
            i <= v@.len(),
            r@ == v@.take(i as int),
        decreases v@.len() - i,
    {
        r.push(v[i]);
        i = i + 1;
        assert(r@ =~= v@.take(i as int));
    }
    assert(v@.take(v@.len() as int) =~= v@);
    r
}

/// A copy of an integer row.
pub fn copy_row(v: &Vec<i64>) -> (r: Vec<i64>)
    ensures
        r@ == v@,
{
    let mut r: Vec<i64> = Vec::new();
    let mut i: usize = 0;
    while i < v.len()
        invariant
            i <= v@.len(),
            r@ == v@.take(i as int),
        decreases v@.len() - i,
    {
        r.push(v[i]);
        i = i + 1;
        assert(r@ =~= v@.take(i as int));
    }
    assert(v@.take(v@.len() as int) =~= v@);
    r
}

/// A copy of an integer matrix.
pub fn copy_matrix(v: &Vec<Vec<i64>>) -> (r: Vec<Vec<i64>>)
    ensures
        rows_view(r@) == rows_view(v@),
{
    let mut r: Vec<Vec<i64>> = Vec::new();
    let mut i: usize = 0;
    while i < v.len()
        invariant
            i <= v@.len(),
            r@.len() == i,
            rows_view(r@) == rows_view(v@).take(i as int),
        decreases v@.len() - i,
    {
        let row = copy_row(&v[i]);
        assert(row@ == rows_view(v@)[i as int]);
        let ghost old_r = r@;
        r.push(row);
        proof {
            assert forall|k: int| 0 <= k < i + 1 implies #[trigger] rows_view(r@)[k] == rows_view(v@)[k] by {
                if k < i {
                    assert(r@[k] == old_r[k]);
                    assert(rows_view(old_r)[k] == old_r[k]@);
                    assert(rows_view(old_r)[k] == rows_view(v@).take(i as int)[k]);
                }
            }
        }
        i = i + 1;
        assert(rows_view(r@) =~= rows_view(v@).take(i as int));
    }
    assert(rows_view(v@).take(v@.len() as int) =~= rows_view(v@));
    r
}

} // verus!
