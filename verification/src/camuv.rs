//! CAMUV's combinatorial core: variable-set enumeration, the structural
//! checks on candidate sets, the parent-search bookkeeping, and the assembly
//! of the adjacency pattern. The HSIC tests and GAM residuals that feed the
//! decisions are computed by the caller.

use vstd::prelude::*;
use crate::bootstrap::extends;
use crate::direct_lingam::{copy_indices, strictly_increasing};
use crate::util::{index_lex_lt, lemma_first_difference_orders};

verus! {

/// `c` is a `t`-element subset of `0..d`, listed in increasing order.
pub open spec fn is_combination(d: nat, t: nat, c: Seq<usize>) -> bool {
    &&& c.len() == t
    &&& strictly_increasing(c)
    &&& forall|i: int| 0 <= i < c.len() ==> #[trigger] c[i] < d
}

/// `cs` lists, in increasing lexicographic order, the combinations that extend
/// `prefix` and whose entry after the prefix is below `bound` (when `limited`;
/// all of them otherwise).
pub open spec fn lists_combinations(
    d: nat,
    t: nat,
    prefix: Seq<usize>,
    limited: bool,
    bound: usize,
    cs: Seq<Seq<usize>>,
) -> bool {
    &&& forall|k: int| #![trigger cs[k]] 0 <= k < cs.len() ==> {
        &&& is_combination(d, t, cs[k])
        &&& extends(prefix, cs[k])
        &&& limited ==> cs[k].len() > prefix.len() && cs[k][prefix.len() as int] < bound
    }
    &&& forall|a: int, b: int| 0 <= a < b < cs.len() ==> index_lex_lt(#[trigger] cs[a], #[trigger] cs[b])
    &&& forall|c: Seq<usize>|
        is_combination(d, t, c) && extends(prefix, c)
            && (limited ==> c.len() > prefix.len() && c[prefix.len() as int] < bound)
            ==> #[trigger] cs.contains(c)
}

/// The index lists of a list of combinations, each taken by its view.
pub open spec fn combos_view(cs: Seq<Vec<usize>>) -> Seq<Seq<usize>> {
    cs.map_values(|c: Vec<usize>| c@)
}

proof fn lemma_combination_step(
    d: nat,
    t: nat,
    prefix: Seq<usize>,
    x: usize,
    old_cs: Seq<Seq<usize>>,
    added: Seq<Seq<usize>>,
)
    requires
        x < usize::MAX,
        lists_combinations(d, t, prefix, true, x, old_cs),
        lists_combinations(d, t, prefix.push(x), false, 0, added),
    ensures
        lists_combinations(d, t, prefix, true, (x + 1) as usize, old_cs + added),
{
    let l = prefix.len() as int;
    let cs = old_cs + added;
    let ext = prefix.push(x);
    assert forall|q: int| #![trigger added[q]] 0 <= q < added.len()
        implies extends(prefix, added[q]) && added[q].len() > l && added[q][l] == x by {
        let c = added[q];
        assert(c.take(l + 1) == ext);
        assert(c[l] == c.take(l + 1)[l]);
        assert(c.take(l) =~= c.take(l + 1).take(l));
        assert(ext.take(l) =~= prefix);
    }
    assert forall|q: int| #![trigger cs[q]] 0 <= q < cs.len() implies {
        &&& is_combination(d, t, cs[q])
        &&& extends(prefix, cs[q])
        &&& cs[q].len() > l && cs[q][l] < x + 1
    } by {
        if q >= old_cs.len() {
            assert(cs[q] == added[q - old_cs.len()]);
        }
    }
    assert forall|a: int, b: int| 0 <= a < b < cs.len() implies index_lex_lt(#[trigger] cs[a], #[trigger] cs[b]) by {
        if b < old_cs.len() {
        } else if a >= old_cs.len() {
            assert(cs[a] == added[a - old_cs.len()]);
            assert(cs[b] == added[b - old_cs.len()]);
        } else {
            assert(cs[b] == added[b - old_cs.len()]);
            lemma_first_difference_orders(cs[a], cs[b], l);
        }
    }
    assert forall|c: Seq<usize>|
        is_combination(d, t, c) && extends(prefix, c) && (c.len() > l && c[l] < x + 1)
        implies #[trigger] cs.contains(c) by {
        if c[l] < x {
            assert(old_cs.contains(c));
            let q = choose|q: int| 0 <= q < old_cs.len() && old_cs[q] == c;
            assert(cs[q] == c);
        } else {
            assert(c.take(l + 1) =~= ext) by {
                assert forall|i: int| 0 <= i < l + 1 implies #[trigger] c.take(l + 1)[i] == ext[i] by {
                    if i < l {
                        assert(c.take(l)[i] == prefix[i]);
                    }
                }
            }
            assert(added.contains(c));
            let q = choose|q: int| 0 <= q < added.len() && added[q] == c;
            assert(cs[old_cs.len() + q] == c);
        }
    }
}

fn extend_combinations(d: usize, t: usize, prefix: &mut Vec<usize>, out: &mut Vec<Vec<usize>>)
    requires
        strictly_increasing(old(prefix)@),
        forall|i: int| 0 <= i < old(prefix)@.len() ==> #[trigger] old(prefix)@[i] < d,
        old(prefix)@.len() <= t,
    ensures
        final(prefix)@ == old(prefix)@,
        final(out)@.len() >= old(out)@.len(),
        final(out)@.take(old(out)@.len() as int) == old(out)@,
        lists_combinations(d as nat, t as nat, old(prefix)@, false, 0,
            combos_view(final(out)@).skip(old(out)@.len() as int)),
    decreases t - old(prefix)@.len(),
{
    let ghost pre = prefix@;
    let ghost base = out@;
    let ghost l = pre.len() as int;
    if prefix.len() == t {
        let found = copy_indices(prefix);
        out.push(found);
        proof {
            let cs = combos_view(out@).skip(base.len() as int);
            assert(cs.len() == 1);
            assert(cs[0] == pre);
            assert(pre.take(l) =~= pre);
            assert forall|c: Seq<usize>| is_combination(d as nat, t as nat, c) && extends(pre, c)
                implies #[trigger] cs.contains(c) by {
                assert(c =~= pre);
            }
            assert(out@.take(base.len() as int) =~= base);
        }
        return;
    }
    let mut x: usize = if prefix.len() == 0 { 0 } else { prefix[prefix.len() - 1] + 1 };
    proof {
        assert(combos_view(out@).skip(base.len() as int) =~= Seq::<Seq<usize>>::empty());
        assert(out@.take(base.len() as int) =~= base);
        assert forall|c: Seq<usize>| is_combination(d as nat, t as nat, c) && extends(pre, c)
            && (c.len() > l && c[l] < x) implies #[trigger] combos_view(out@).skip(base.len() as int).contains(c) by {
            if l > 0 {
                assert(c[l - 1] == c.take(l)[l - 1]);
                assert(c[l - 1] < c[l]);
            }
        }
    }
    while x < d
        invariant
            prefix@ == pre,
            pre == old(prefix)@,
            l == pre.len(),
            l < t,
            strictly_increasing(pre),
            forall|i: int| 0 <= i < pre.len() ==> #[trigger] pre[i] < d,
            l > 0 ==> pre[l - 1] < x,
            out@.len() >= base.len(),
            out@.take(base.len() as int) == base,
            lists_combinations(d as nat, t as nat, pre, true, x, combos_view(out@).skip(base.len() as int)),
        decreases d - x,
    {
        let ghost before = out@;
        prefix.push(x);
        proof {
            assert forall|a: int, b: int| 0 <= a < b < prefix@.len() implies #[trigger] prefix@[a] < #[trigger] prefix@[b] by {
                if b == l {
                    if a < l - 1 {
                        assert(pre[a] < pre[l - 1]);
                    }
                } else {
                    assert(prefix@[a] == pre[a] && prefix@[b] == pre[b]);
                }
            }
        }
        extend_combinations(d, t, prefix, out);
        prefix.pop();
        proof {
            assert(prefix@ =~= pre);
            let old_cs = combos_view(before).skip(base.len() as int);
            let added = combos_view(out@).skip(before.len() as int);
            let cs = combos_view(out@).skip(base.len() as int);
            assert(cs =~= old_cs + added) by {
                assert forall|q: int| 0 <= q < cs.len() implies #[trigger] cs[q] == (old_cs + added)[q] by {
                    if q < old_cs.len() {
                        assert(out@[base.len() + q] == out@.take(before.len() as int)[base.len() + q]);
                    }
                }
            }
            assert(out@.take(base.len() as int) =~= base) by {
                assert forall|q: int| 0 <= q < base.len() implies #[trigger] out@[q] == base[q] by {
                    assert(out@[q] == out@.take(before.len() as int)[q]);
                    assert(before[q] == before.take(base.len() as int)[q]);
                }
            }
            lemma_combination_step(d as nat, t as nat, pre, x, old_cs, added);
        }
        x = x + 1;
    }
    proof {
        let cs = combos_view(out@).skip(base.len() as int);
        assert forall|c: Seq<usize>| is_combination(d as nat, t as nat, c) && extends(pre, c)
            implies #[trigger] cs.contains(c) by {
            assert(c[l] < d);
        }
    }
}

/// All `t`-element subsets of `0..d`, each in increasing order, listed in
/// increasing lexicographic order.
pub fn combinations(d: usize, t: usize) -> (cs: Vec<Vec<usize>>)
    ensures
        lists_combinations(d as nat, t as nat, Seq::empty(), false, 0, combos_view(cs@)),
        forall|k: int| #![trigger combos_view(cs@)[k]] 0 <= k < cs@.len()
            ==> is_combination(d as nat, t as nat, combos_view(cs@)[k]),
        forall|c: Seq<usize>| is_combination(d as nat, t as nat, c) ==> #[trigger] combos_view(cs@).contains(c),
        forall|a: int, b: int| 0 <= a < b < cs@.len()
            ==> index_lex_lt(#[trigger] combos_view(cs@)[a], #[trigger] combos_view(cs@)[b]),
{
    let mut prefix: Vec<usize> = Vec::new();
    let mut out: Vec<Vec<usize>> = Vec::new();
    extend_combinations(d, t, &mut prefix, &mut out);
    proof {
        let cs = combos_view(out@);
        assert(combos_view(out@).skip(0) =~= cs);
        assert forall|c: Seq<usize>| is_combination(d as nat, t as nat, c) implies #[trigger] cs.contains(c) by {
            assert(c.take(0) =~= Seq::<usize>::empty());
        }
    }
    out
}


proof fn lemma_index_lex_irreflexive(a: Seq<usize>)
    ensures
        !index_lex_lt(a, a),
    decreases a.len(),
{
    if a.len() > 0 {
        lemma_index_lex_irreflexive(a.drop_first());
    }
}

proof fn lemma_index_lex_transitive(a: Seq<usize>, b: Seq<usize>, c: Seq<usize>)
    requires
        index_lex_lt(a, b),
        index_lex_lt(b, c),
    ensures
        index_lex_lt(a, c),
    decreases a.len(),
{
    if a.len() > 0 && b.len() > 0 && c.len() > 0 && a[0] == b[0] && b[0] == c[0] {
        lemma_index_lex_transitive(a.drop_first(), b.drop_first(), c.drop_first());
    }
}

/// Two lexicographically sorted lists with the same members agree on their
/// first `k` entries.
proof fn lemma_sorted_prefix_equal(xs: Seq<Seq<usize>>, ys: Seq<Seq<usize>>, k: int)
    requires
        forall|a: int, b: int| 0 <= a < b < xs.len() ==> index_lex_lt(#[trigger] xs[a], #[trigger] xs[b]),
        forall|a: int, b: int| 0 <= a < b < ys.len() ==> index_lex_lt(#[trigger] ys[a], #[trigger] ys[b]),
        forall|a: int| 0 <= a < xs.len() ==> ys.contains(#[trigger] xs[a]),
        forall|a: int| 0 <= a < ys.len() ==> xs.contains(#[trigger] ys[a]),
        0 <= k <= xs.len(),
        k <= ys.len(),
    ensures
        forall|i: int| 0 <= i < k ==> #[trigger] xs[i] == ys[i],
    decreases k,
{
    if k > 0 {
        lemma_sorted_prefix_equal(xs, ys, k - 1);
        let i = k - 1;
        assert(ys.contains(xs[i]));
        let j = choose|j: int| 0 <= j < ys.len() && ys[j] == xs[i];
        if j < i {
            assert(xs[j] == ys[j]);
            assert(index_lex_lt(xs[j], xs[i]));
            lemma_index_lex_irreflexive(xs[i]);
        } else if j > i {
            assert(index_lex_lt(ys[i], ys[j]));
            assert(xs.contains(ys[i]));
            let q = choose|q: int| 0 <= q < xs.len() && xs[q] == ys[i];
            if q < i {
                assert(xs[q] == ys[q]);
                assert(index_lex_lt(ys[q], ys[i]));
                lemma_index_lex_irreflexive(ys[i]);
            } else if q == i {
                lemma_index_lex_irreflexive(ys[i]);
            } else {
                assert(index_lex_lt(xs[i], xs[q]));
                lemma_index_lex_transitive(xs[i], xs[q], xs[i]);
                lemma_index_lex_irreflexive(xs[i]);
            }
        }
    }
}

/// There is only one list of all `t`-element subsets of `0..d` in increasing
/// lexicographic order: any two such lists are equal.
pub proof fn lemma_combination_list_unique(d: nat, t: nat, xs: Seq<Seq<usize>>, ys: Seq<Seq<usize>>)
    requires
        lists_combinations(d, t, Seq::empty(), false, 0, xs),
        lists_combinations(d, t, Seq::empty(), false, 0, ys),
    ensures
        xs == ys,
{
    assert forall|a: int| 0 <= a < xs.len() implies ys.contains(#[trigger] xs[a]) by {
        assert(xs[a].take(0) =~= Seq::<usize>::empty());
    }
    assert forall|a: int| 0 <= a < ys.len() implies xs.contains(#[trigger] ys[a]) by {
        assert(ys[a].take(0) =~= Seq::<usize>::empty());
    }
    let m = if xs.len() < ys.len() { xs.len() as int } else { ys.len() as int };
    lemma_sorted_prefix_equal(xs, ys, m);
    if xs.len() > ys.len() {
        let j = choose|j: int| 0 <= j < ys.len() && ys[j] == xs[m];
        assert(xs[j] == ys[j]);
        assert(index_lex_lt(xs[j], xs[m]));
        lemma_index_lex_irreflexive(xs[m]);
    } else if ys.len() > xs.len() {
        let j = choose|j: int| 0 <= j < xs.len() && xs[j] == ys[m];
        assert(xs[j] == ys[j]);
        assert(index_lex_lt(ys[j], ys[m]));
        lemma_index_lex_irreflexive(ys[m]);
    }
    assert(xs =~= ys);
}

/// `m` is a `d` by `d` boolean matrix.
pub open spec fn is_square_bool(m: Seq<Seq<bool>>, d: nat) -> bool {
    &&& m.len() == d
    &&& forall|i: int| 0 <= i < d ==> #[trigger] m[i].len() == d
}

/// CAMUV prior knowledge: `(from, to)` pairs, each stating that `x_from`
/// cannot be a direct cause of `x_to`. Pairs are kept as given; indices outside
/// the data never match a variable.
#[derive(Debug)]
pub struct PriorKnowledge {
    pairs: Vec<(i64, i64)>,
}

/// The pairs state that `x_from` cannot directly cause `x_to`.
pub open spec fn forbids(pairs: Seq<(i64, i64)>, from: int, to: int) -> bool {
    exists|k: int| #![trigger pairs[k]] 0 <= k < pairs.len() && pairs[k].0 as int == from && pairs[k].1 as int == to
}

/// A pair rules out exactly its own direct cause: for indices that fit the
/// pairs' integer type, `forbids(pairs, from, to)` holds exactly when
/// `(from, to)` is one of the pairs; a pair `(f, to)` with `f != from` says
/// nothing of `from`.
pub proof fn lemma_forbids_is_the_pair(pairs: Seq<(i64, i64)>, from: int, to: int)
    requires
        0 <= from <= i64::MAX,
        0 <= to <= i64::MAX,
    ensures
        forbids(pairs, from, to) <==> pairs.contains((from as i64, to as i64)),
{
    if forbids(pairs, from, to) {
        let k = choose|k: int| #![trigger pairs[k]] 0 <= k < pairs.len() && pairs[k].0 as int == from
            && pairs[k].1 as int == to;
        assert(pairs[k] == (from as i64, to as i64));
    }
    if pairs.contains((from as i64, to as i64)) {
        let k = choose|k: int| 0 <= k < pairs.len() && pairs[k] == (from as i64, to as i64);
        assert(pairs[k].0 as int == from && pairs[k].1 as int == to);
    }
}

proof fn lemma_some_member_forbidden(pairs: Seq<(i64, i64)>, xs: Seq<usize>, t: usize)
    requires
        t <= i64::MAX,
        forall|a: int| 0 <= a < xs.len() ==> #[trigger] xs[a] <= i64::MAX,
    ensures
        (exists|a: int| 0 <= a < xs.len() && #[trigger] forbids(pairs, xs[a] as int, t as int))
            <==> (exists|a: int| 0 <= a < xs.len() && #[trigger] pairs.contains((xs[a] as i64, t as i64))),
{
    if exists|a: int| 0 <= a < xs.len() && #[trigger] forbids(pairs, xs[a] as int, t as int) {
        let a = choose|a: int| 0 <= a < xs.len() && #[trigger] forbids(pairs, xs[a] as int, t as int);
        lemma_forbids_is_the_pair(pairs, xs[a] as int, t as int);
        assert(pairs.contains((xs[a] as i64, t as i64)));
    }
    if exists|a: int| 0 <= a < xs.len() && #[trigger] pairs.contains((xs[a] as i64, t as i64)) {
        let a = choose|a: int| 0 <= a < xs.len() && #[trigger] pairs.contains((xs[a] as i64, t as i64));
        lemma_forbids_is_the_pair(pairs, xs[a] as int, t as int);
        assert(forbids(pairs, xs[a] as int, t as int));
    }
}

impl PriorKnowledge {
    /// The stated pairs.
    pub closed spec fn forbidden(&self) -> Seq<(i64, i64)> {
        self.pairs@
    }

    /// Read the `(from, to)` pairs; the index of the first
    /// entry that is not a pair is reported.
    pub fn from_pairs(entries: Vec<Vec<i64>>) -> (res: Result<Self, usize>)
        ensures
            match res {
                Ok(pk) => {
                    &&& forall|k: int| 0 <= k < entries@.len() ==> #[trigger] entries@[k]@.len() == 2
                    &&& pk.forbidden().len() == entries@.len()
                    &&& forall|k: int| 0 <= k < entries@.len()
                        ==> #[trigger] pk.forbidden()[k] == (entries@[k]@[0], entries@[k]@[1])
                },
                Err(bad) => {
                    &&& bad < entries@.len()
                    &&& entries@[bad as int]@.len() != 2
                    &&& forall|k: int| 0 <= k < bad ==> #[trigger] entries@[k]@.len() == 2
                },
            },
    {
        let mut pairs: Vec<(i64, i64)> = Vec::new();
        let mut k: usize = 0;
        while k < entries.len()
            invariant
                k <= entries@.len(),
                pairs@.len() == k,
                forall|q: int| 0 <= q < k ==> #[trigger] entries@[q]@.len() == 2,
                forall|q: int| 0 <= q < k ==> #[trigger] pairs@[q] == (entries@[q]@[0], entries@[q]@[1]),
            decreases entries@.len() - k,
        {
            if entries[k].len() != 2 {
                return Err(k);
            }
            pairs.push((entries[k][0], entries[k][1]));
            k = k + 1;
        }
        Ok(PriorKnowledge { pairs })
    }
}

fn forbidden_pair(p: &PriorKnowledge, from: usize, to: usize) -> (r: bool)
    ensures
        r == forbids(p.forbidden(), from as int, to as int),
{
    let mut k: usize = 0;
    while k < p.pairs.len()
        invariant
            k <= p.pairs@.len(),
            forall|q: int| #![trigger p.pairs@[q]] 0 <= q < k
                ==> !(p.pairs@[q].0 as int == from as int && p.pairs@[q].1 as int == to as int),
        decreases p.pairs@.len() - k,
    {
        let (f, t) = p.pairs[k];
        if from as i128 == f as i128 && to as i128 == t as i128 {
            assert(p.pairs@[k as int].0 as int == from as int);
            return true;
        }
        k = k + 1;
    }
    false
}

/// Whether the knowledge forbids some
/// member of `xj_list` as a direct cause of `xi`.
pub fn check_prior_knowledge(pk: Option<&PriorKnowledge>, xj_list: &Vec<usize>, xi: usize) -> (r: bool)
    ensures
        r == (pk.is_some() && exists|a: int| 0 <= a < xj_list@.len()
            && #[trigger] forbids(pk.unwrap().forbidden(), xj_list@[a] as int, xi as int)),
        xi <= i64::MAX && (forall|a: int| 0 <= a < xj_list@.len() ==> #[trigger] xj_list@[a] <= i64::MAX)
            ==> (r <==> (pk.is_some() && exists|a: int| 0 <= a < xj_list@.len()
                && #[trigger] pk.unwrap().forbidden().contains((xj_list@[a] as i64, xi as i64)))),
{
    proof {
        if pk.is_some() && xi <= i64::MAX
            && (forall|a: int| 0 <= a < xj_list@.len() ==> #[trigger] xj_list@[a] <= i64::MAX) {
            lemma_some_member_forbidden(pk.unwrap().forbidden(), xj_list@, xi);
        }
    }
    match pk {
        None => false,
        Some(p) => {
            let mut a: usize = 0;
            while a < xj_list.len()
                invariant
                    a <= xj_list@.len(),
                    pk == Some(p),
                    forall|b: int| 0 <= b < a ==> !#[trigger] forbids(p.forbidden(), xj_list@[b] as int, xi as int),
                decreases xj_list@.len() - a,
            {
                if forbidden_pair(p, xj_list[a], xi) {
                    assert(forbids(pk.unwrap().forbidden(), xj_list@[a as int] as int, xi as int));
                    proof {
                        if xi <= i64::MAX
                            && (forall|b: int| 0 <= b < xj_list@.len() ==> #[trigger] xj_list@[b] <= i64::MAX) {
                            lemma_some_member_forbidden(pk.unwrap().forbidden(), xj_list@, xi);
                        }
                    }
                    return true;
                }
                a = a + 1;
            }
            false
        },
    }
}

/// Every proposed parent is a
/// neighbour of `child`.
pub fn check_correlation(child: usize, parents: &Vec<usize>, neighborhoods: &Vec<Vec<bool>>) -> (r: bool)
    requires
        child < neighborhoods@.len(),
        is_square_bool(crate::bootstrap::pattern_view(neighborhoods@), neighborhoods@.len() as nat),
        forall|a: int| 0 <= a < parents@.len() ==> #[trigger] parents@[a] < neighborhoods@.len(),
    ensures
        r == forall|a: int| 0 <= a < parents@.len()
            ==> #[trigger] neighborhoods@[child as int]@[parents@[a] as int],
{
    let ghost nv = crate::bootstrap::pattern_view(neighborhoods@);
    assert(nv[child as int] == neighborhoods@[child as int]@);
    let mut a: usize = 0;
    while a < parents.len()
        invariant
            a <= parents@.len(),
            child < neighborhoods@.len(),
            nv[child as int] == neighborhoods@[child as int]@,
            is_square_bool(nv, neighborhoods@.len() as nat),
            forall|b: int| 0 <= b < parents@.len() ==> #[trigger] parents@[b] < neighborhoods@.len(),
            forall|b: int| 0 <= b < a ==> #[trigger] neighborhoods@[child as int]@[parents@[b] as int],
        decreases parents@.len() - a,
    {
        if !neighborhoods[child][parents[a]] {
            return false;
        }
        a = a + 1;
    }
    true
}

/// No two members of `set` are already related either way in `p`.
pub open spec fn identified(p: Seq<Seq<bool>>, set: Seq<usize>) -> bool {
    forall|a: int, b: int|
        0 <= a < b < set.len() ==> !p[#[trigger] set[a] as int][#[trigger] set[b] as int] && !p[set[b] as int][set[a] as int]
}

/// A set of distinct variables passes `identified` exactly when no member is
/// a known parent of another member, in either direction.
pub proof fn lemma_identified_means_unrelated(p: Seq<Seq<bool>>, set: Seq<usize>)
    requires
        strictly_increasing(set),
    ensures
        identified(p, set) <==> forall|x: usize, y: usize|
            #[trigger] set.contains(x) && #[trigger] set.contains(y) && x != y ==> !p[x as int][y as int],
{
    if identified(p, set) {
        assert forall|x: usize, y: usize| #[trigger] set.contains(x) && #[trigger] set.contains(y) && x != y
            implies !p[x as int][y as int] by {
            let a = choose|a: int| 0 <= a < set.len() && set[a] == x;
            let b = choose|b: int| 0 <= b < set.len() && set[b] == y;
            if a < b {
                assert(!p[set[a] as int][set[b] as int]);
            } else {
                assert(!p[set[b] as int][set[a] as int] && !p[set[a] as int][set[b] as int]);
            }
        }
    }
    if forall|x: usize, y: usize| #[trigger] set.contains(x) && #[trigger] set.contains(y) && x != y
        ==> !p[x as int][y as int] {
        assert forall|a: int, b: int| 0 <= a < b < set.len() implies
            !p[#[trigger] set[a] as int][#[trigger] set[b] as int] && !p[set[b] as int][set[a] as int] by {
            assert(set.contains(set[a]) && set.contains(set[b]));
            assert(set[a] < set[b]);
        }
    }
}

/// No member of the set is
/// already a known parent of another.
pub fn check_identified_causality(variables_set: &Vec<usize>, p: &Vec<Vec<bool>>) -> (r: bool)
    requires
        is_square_bool(crate::bootstrap::pattern_view(p@), p@.len() as nat),
        forall|a: int| 0 <= a < variables_set@.len() ==> #[trigger] variables_set@[a] < p@.len(),
    ensures
        r == identified(crate::bootstrap::pattern_view(p@), variables_set@),
        strictly_increasing(variables_set@) ==> (r <==> forall|x: usize, y: usize|
            #[trigger] variables_set@.contains(x) && #[trigger] variables_set@.contains(y) && x != y
                ==> !p@[x as int]@[y as int]),
{
    let r = identified_members(variables_set, p);
    proof {
        if strictly_increasing(variables_set@) {
            lemma_identified_means_unrelated(crate::bootstrap::pattern_view(p@), variables_set@);
            assert forall|x: usize, y: usize| x < p@.len() && y < p@.len() implies
                #[trigger] crate::bootstrap::pattern_view(p@)[x as int][y as int] == p@[x as int]@[y as int] by {}
        }
    }
    r
}

fn identified_members(variables_set: &Vec<usize>, p: &Vec<Vec<bool>>) -> (r: bool)
    requires
        is_square_bool(crate::bootstrap::pattern_view(p@), p@.len() as nat),
        forall|a: int| 0 <= a < variables_set@.len() ==> #[trigger] variables_set@[a] < p@.len(),
    ensures
        r == identified(crate::bootstrap::pattern_view(p@), variables_set@),
{
    let ghost pv = crate::bootstrap::pattern_view(p@);
    let s = variables_set;
    let mut a: usize = 0;
    while a < s.len()
        invariant
            a <= s@.len(),
            s@ == variables_set@,
            pv == crate::bootstrap::pattern_view(p@),
            is_square_bool(pv, p@.len() as nat),
            forall|q: int| 0 <= q < s@.len() ==> #[trigger] s@[q] < p@.len(),
            forall|x: int, y: int| 0 <= x < a && x < y < s@.len()
                ==> !pv[#[trigger] s@[x] as int][#[trigger] s@[y] as int] && !pv[s@[y] as int][s@[x] as int],
        decreases s@.len() - a,
    {
        let mut b: usize = a + 1;
        while b < s.len()
            invariant
                a < s@.len(),
                s@ == variables_set@,
                a + 1 <= b <= s@.len(),
                pv == crate::bootstrap::pattern_view(p@),
                is_square_bool(pv, p@.len() as nat),
                forall|q: int| 0 <= q < s@.len() ==> #[trigger] s@[q] < p@.len(),
                forall|x: int, y: int| 0 <= x < a && x < y < s@.len()
                    ==> !pv[#[trigger] s@[x] as int][#[trigger] s@[y] as int] && !pv[s@[y] as int][s@[x] as int],
                forall|y: int| a < y < b
                    ==> !pv[s@[a as int] as int][#[trigger] s@[y] as int] && !pv[s@[y] as int][s@[a as int] as int],
            decreases s@.len() - b,
        {
            let i = s[a];
            let j = s[b];
            assert(pv[i as int] == p@[i as int]@);
            assert(pv[j as int] == p@[j as int]@);
            if p[i][j] || p[j][i] {
                proof {
                    assert(pv[i as int][j as int] || pv[j as int][i as int]);
                    assert(s@[a as int] == i && s@[b as int] == j);
                    assert(!identified(pv, s@));
                }
                return false;
            }
            b = b + 1;
        }
        a = a + 1;
    }
    true
}


/// One step of the CAMUV parent search.
#[derive(Debug)]
pub enum SearchStep {
    /// The caller tests this variable set (ascending) and, when it finds a
    /// child among them, records it with `add_parents`.
    Examine(Vec<usize>),
    /// The next variable set of the pass already has a known relation.
    Skipped,
    /// A new pass over the variable sets starts (of size `t`).
    NewPass,
    /// The search is over.
    Finished,
}

/// `p` is a parent pattern on `d` variables: `p[i][j]` states that `x_j` is a
/// parent of `x_i`; nothing is its own parent and no two variables are each
/// other's parent.
pub open spec fn is_parent_pattern(p: Seq<Seq<bool>>, d: nat) -> bool {
    &&& is_square_bool(p, d)
    &&& forall|i: int| 0 <= i < d ==> !#[trigger] p[i][i]
    &&& forall|i: int, j: int| 0 <= i < d && 0 <= j < d ==> !(#[trigger] p[i][j] && #[trigger] p[j][i])
}

/// No parent in `p` is one that the forbidden pairs rule out as a direct
/// cause of its child.
pub open spec fn respects_knowledge(p: Seq<Seq<bool>>, d: nat, knowledge: Option<Seq<(i64, i64)>>) -> bool {
    knowledge matches Some(pairs) ==> forall|i: int, j: int| 0 <= i < d && 0 <= j < d && #[trigger] p[i][j]
        ==> !forbids(pairs, j, i)
}

/// Every parent in `p` is a neighbour of its child in `nb`.
pub open spec fn within_neighborhoods(p: Seq<Seq<bool>>, d: nat, nb: Seq<Seq<bool>>) -> bool {
    forall|i: int, j: int| 0 <= i < d && 0 <= j < d && #[trigger] p[i][j] ==> nb[i][j]
}

/// Bookkeeping of the CAMUV parent search: the pass over all variable sets of size
/// `t`, the cursor into it, whether the pass changed anything, and the parent
/// pattern found so far.
pub struct ParentSearch {
    d: usize,
    max_vals: usize,
    t: usize,
    combos: Vec<Vec<usize>>,
    next: usize,
    changed: bool,
    done: bool,
    current: Vec<usize>,
    has_current: bool,
    parents: Vec<Vec<bool>>,
    knowledge: Ghost<Option<Seq<(i64, i64)>>>,
    neighborhoods: Ghost<Seq<Seq<bool>>>,
}

impl ParentSearch {
    /// Number of variables.
    pub closed spec fn size(&self) -> nat {
        self.d as nat
    }

    /// The parent pattern found so far.
    pub closed spec fn parent_view(&self) -> Seq<Seq<bool>> {
        crate::bootstrap::pattern_view(self.parents@)
    }

    /// Size of the variable sets of the current pass.
    pub closed spec fn set_size(&self) -> nat {
        self.t as nat
    }

    /// The variable sets of the current pass.
    pub closed spec fn pass_view(&self) -> Seq<Seq<usize>> {
        combos_view(self.combos@)
    }

    /// How many sets of the current pass have been stepped over.
    pub closed spec fn cursor(&self) -> nat {
        self.next as nat
    }

    /// Whether the current pass has added a parent.
    pub closed spec fn pass_changed(&self) -> bool {
        self.changed
    }

    /// Whether the search is over.
    pub closed spec fn finished(&self) -> bool {
        self.done
    }

    /// The set handed out by the last `Examine` step, if it may still be recorded.
    pub closed spec fn examined(&self) -> Option<Seq<usize>> {
        if self.has_current { Some(self.current@) } else { None }
    }

    /// The largest set size tried before the search ends.
    pub closed spec fn limit(&self) -> nat {
        self.max_vals as nat
    }

    /// The forbidden `(from, to)` pairs the search was started with, if any.
    pub closed spec fn knowledge(&self) -> Option<Seq<(i64, i64)>> {
        self.knowledge@
    }

    /// The neighbourhood pattern the search was started with: `[i][j]` when
    /// `x_i` and `x_j` were found dependent.
    pub closed spec fn neighborhoods(&self) -> Seq<Seq<bool>> {
        self.neighborhoods@
    }

    /// The bookkeeping invariant.
    pub closed spec fn wf(&self) -> bool {
        let d = self.d as nat;
        &&& is_parent_pattern(self.parent_view(), d)
        &&& self.parents@.len() == d
        &&& self.t >= 2
        &&& lists_combinations(d, self.t as nat, Seq::empty(), false, 0, combos_view(self.combos@))
        &&& self.next <= self.combos@.len()
        &&& self.has_current ==> {
            &&& is_combination(d, self.t as nat, self.current@)
            &&& identified(self.parent_view(), self.current@)
        }
        &&& respects_knowledge(self.parent_view(), d, self.knowledge@)
        &&& within_neighborhoods(self.parent_view(), d, self.neighborhoods@)
    }

    /// Start the search over `d` variables, with sets of at most `max_vals`
    /// variables (a first pass over pairs always runs), under the prior
    /// knowledge `pk` and with the neighbourhood pattern `neighborhoods`.
    pub fn new(d: usize, max_vals: usize, neighborhoods: &Vec<Vec<bool>>, pk: Option<&PriorKnowledge>) -> (r: Self)
        ensures
            r.wf(),
            r.knowledge() == knowledge_pairs(pk),
            r.neighborhoods() == crate::bootstrap::pattern_view(neighborhoods@),
            r.size() == d,
            r.limit() == max_vals,
            r.set_size() == 2,
            r.cursor() == 0,
            !r.pass_changed(),
            !r.finished(),
            r.examined() is None,
            forall|i: int, j: int| 0 <= i < d && 0 <= j < d ==> !#[trigger] r.parent_view()[i][j],
    {
        let mut parents: Vec<Vec<bool>> = Vec::new();
        let mut i: usize = 0;
        while i < d
            invariant
                i <= d,
                parents@.len() == i,
                forall|k: int| 0 <= k < i ==> #[trigger] parents@[k]@.len() == d,
                forall|k: int, j: int| 0 <= k < i && 0 <= j < d ==> !#[trigger] parents@[k]@[j],
            decreases d - i,
        {
            let mut row: Vec<bool> = Vec::new();
            let mut j: usize = 0;
            while j < d
                invariant
                    j <= d,
                    row@.len() == j,
                    forall|q: int| 0 <= q < j ==> !#[trigger] row@[q],
                decreases d - j,
            {
                row.push(false);
                j = j + 1;
            }
            parents.push(row);
            i = i + 1;
        }
        let combos = combinations(d, 2);
        ParentSearch {
            d,
            max_vals,
            t: 2,
            combos,
            next: 0,
            changed: false,
            done: false,
            current: Vec::new(),
            has_current: false,
            parents,
            knowledge: Ghost(knowledge_pairs(pk)),
            neighborhoods: Ghost(crate::bootstrap::pattern_view(neighborhoods@)),
        }
    }

    /// Advance by one set: hand out the next set of the pass when none of its
    /// members is yet a parent of another, skip it otherwise; at the end of a
    /// pass start over at pairs if the pass added a parent, else move on to
    /// sets one larger, or finish once the size would exceed the limit.
    pub fn step(&mut self) -> (r: SearchStep)
        requires
            old(self).wf(),
        ensures
            final(self).wf(),
            final(self).size() == old(self).size(),
            final(self).limit() == old(self).limit(),
            final(self).knowledge() == old(self).knowledge(),
            final(self).neighborhoods() == old(self).neighborhoods(),
            final(self).parent_view() == old(self).parent_view(),
            old(self).finished() ==> r is Finished && final(self).finished(),
            !old(self).finished() && old(self).cursor() < old(self).pass_view().len() ==> {
                let c = old(self).pass_view()[old(self).cursor() as int];
                &&& final(self).cursor() == old(self).cursor() + 1
                &&& final(self).set_size() == old(self).set_size()
                &&& final(self).pass_view() == old(self).pass_view()
                &&& final(self).pass_changed() == old(self).pass_changed()
                &&& !final(self).finished()
                &&& identified(old(self).parent_view(), c) ==> (r matches SearchStep::Examine(s) && s@ == c
                    && final(self).examined() == Some(c))
                &&& !identified(old(self).parent_view(), c) ==> r is Skipped
            },
            !old(self).finished() && old(self).cursor() == old(self).pass_view().len() ==> {
                &&& final(self).cursor() == 0
                &&& !final(self).pass_changed()
                &&& old(self).pass_changed() ==> r is NewPass && final(self).set_size() == 2 && !final(self).finished()
                &&& !old(self).pass_changed() && old(self).set_size() < old(self).limit() ==> r is NewPass
                    && final(self).set_size() == old(self).set_size() + 1 && !final(self).finished()
                &&& !old(self).pass_changed() && old(self).set_size() >= old(self).limit() ==> r is Finished
                    && final(self).finished()
            },
    {
        if self.done {
            return SearchStep::Finished;
        }
        if self.next < self.combos.len() {
            let c = copy_indices(&self.combos[self.next]);
            proof {
                let k = self.next as int;
                assert(combos_view(self.combos@)[k] == self.combos@[k]@);
                assert(is_combination(self.d as nat, self.t as nat, c@));
            }
            self.next = self.next + 1;
            if check_identified_causality(&c, &self.parents) {
                self.current = copy_indices(&c);
                self.has_current = true;
                return SearchStep::Examine(c);
            }
            return SearchStep::Skipped;
        }
        self.has_current = false;
        if self.changed {
            self.t = 2;
        } else if self.t < self.max_vals {
            self.t = self.t + 1;
        } else {
            self.done = true;
            self.next = 0;
            return SearchStep::Finished;
        }
        self.combos = combinations(self.d, self.t);
        self.next = 0;
        self.changed = false;
        SearchStep::NewPass
    }

    /// Record `child` of the set handed out by the last `Examine` step: the
    /// other members become its parents, and the pass counts as changed. The
    /// child must be one that the prior knowledge lets the others cause (as
    /// `eligible_children` selects).
    pub fn add_parents(&mut self, child: usize)
        requires
            old(self).wf(),
            old(self).examined() matches Some(c) && c.contains(child),
            old(self).knowledge() matches Some(pairs) ==> forall|j: int|
                0 <= j < old(self).size() && j != child && old(self).examined().unwrap().contains(j as usize)
                ==> !#[trigger] forbids(pairs, j, child as int),
            forall|j: int| 0 <= j < old(self).size() && j != child
                && old(self).examined().unwrap().contains(j as usize)
                ==> #[trigger] old(self).neighborhoods()[child as int][j],
        ensures
            final(self).wf(),
            final(self).knowledge() == old(self).knowledge(),
            final(self).neighborhoods() == old(self).neighborhoods(),
            final(self).size() == old(self).size(),
            final(self).limit() == old(self).limit(),
            final(self).set_size() == old(self).set_size(),
            final(self).pass_view() == old(self).pass_view(),
            final(self).cursor() == old(self).cursor(),
            final(self).finished() == old(self).finished(),
            final(self).pass_changed(),
            final(self).examined() is None,
            forall|i: int, j: int| 0 <= i < old(self).size() && 0 <= j < old(self).size() ==>
                #[trigger] final(self).parent_view()[i][j] == (old(self).parent_view()[i][j]
                    || (i == child && j != child && old(self).examined().unwrap().contains(j as usize))),
            forall|j: int| 0 <= j < old(self).size() && j != child && old(self).examined().unwrap().contains(j as usize)
                ==> !#[trigger] old(self).parent_view()[child as int][j],
    {
        let ghost pv = self.parent_view();
        let ghost cur = self.current@;
        let ghost d = self.d as nat;
        proof {
            assert forall|j: int| 0 <= j < d && j != child && cur.contains(j as usize)
                implies !#[trigger] pv[child as int][j] by {
                let a = choose|a: int| 0 <= a < cur.len() && cur[a] == child;
                let b = choose|b: int| 0 <= b < cur.len() && cur[b] == j as usize;
                if a < b {
                    assert(!pv[cur[a] as int][cur[b] as int]);
                } else if b < a {
                    assert(!pv[cur[a] as int][cur[b] as int]);
                }
            }
        }
        let mut row = crate::bootstrap::copy_flags(&self.parents[child]);
        proof {
            let a = choose|a: int| 0 <= a < cur.len() && cur[a] == child;
            assert(child < d);
            assert(pv[child as int] == self.parents@[child as int]@);
        }
        let mut k: usize = 0;
        while k < self.current.len()
            invariant
                k <= cur.len(),
                cur == self.current@,
                child < d,
                row@.len() == d,
                pv[child as int].len() == d,
                is_combination(d, self.t as nat, cur),
                forall|j: usize| j < d ==> #[trigger] row@[j as int] == (pv[child as int][j as int]
                    || (j != child && cur.take(k as int).contains(j))),
            decreases cur.len() - k,
        {
            let j = self.current[k];
            let ghost before = row@;
            if j != child {
                row.set(j, true);
            }
            proof {
                let tk = cur.take(k as int);
                let tk1 = cur.take(k + 1);
                assert(tk1 =~= tk.push(j));
                assert forall|x: usize| x < d implies #[trigger] row@[x as int] == (pv[child as int][x as int]
                    || (x != child && tk1.contains(x))) by {
                    assert(before[x as int] == (pv[child as int][x as int] || (x != child && tk.contains(x))));
                    if tk.contains(x) {
                        let q = choose|q: int| 0 <= q < tk.len() && tk[q] == x;
                        assert(tk1[q] == x);
                    }
                    if tk1.contains(x) && x != j {
                        let q = choose|q: int| 0 <= q < tk1.len() && tk1[q] == x;
                        assert(q != k);
                        assert(tk[q] == x);
                    }
                    if x == j {
                        assert(tk1[k as int] == x);
                    }
                }
            }
            k = k + 1;
        }
        assert(cur.take(cur.len() as int) =~= cur);
        let ghost old_parents = self.parents@;
        self.parents.set(child, row);
        self.changed = true;
        self.has_current = false;
        proof {
            let npv = self.parent_view();
            assert forall|i: int| 0 <= i < d implies #[trigger] npv[i].len() == d by {
                if i != child {
                    assert(npv[i] == pv[i]);
                }
            }
            assert forall|i: int, j: int| 0 <= i < d && 0 <= j < d implies #[trigger] npv[i][j] == (pv[i][j]
                || (i == child && j != child && cur.contains(j as usize))) by {
                if i != child {
                    assert(npv[i] == old_parents[i]@);
                }
            }
            assert forall|i: int| 0 <= i < d implies !#[trigger] npv[i][i] by {
                if i != child {
                    assert(npv[i] == pv[i]);
                }
            }
            assert forall|i: int, j: int| 0 <= i < d && 0 <= j < d implies !(#[trigger] npv[i][j] && #[trigger] npv[j][i]) by {
                if i == child && j != child && cur.contains(j as usize) {
                    assert(npv[j] == pv[j]);
                    let a = choose|a: int| 0 <= a < cur.len() && cur[a] == child;
                    let b = choose|b: int| 0 <= b < cur.len() && cur[b] == j as usize;
                    if a < b {
                        assert(!pv[cur[b] as int][cur[a] as int]);
                    } else {
                        assert(!pv[cur[b] as int][cur[a] as int]);
                    }
                } else if j == child && i != child && cur.contains(i as usize) {
                    assert(npv[i] == pv[i]);
                    let a = choose|a: int| 0 <= a < cur.len() && cur[a] == child;
                    let b = choose|b: int| 0 <= b < cur.len() && cur[b] == i as usize;
                    if a < b {
                        assert(!pv[cur[a] as int][cur[b] as int]);
                    } else {
                        assert(!pv[cur[a] as int][cur[b] as int]);
                    }
                } else if i != child && j != child {
                    assert(npv[i] == pv[i] && npv[j] == pv[j]);
                }
            }
            assert(within_neighborhoods(npv, d, self.neighborhoods@)) by {
                assert forall|i: int, j: int| 0 <= i < d && 0 <= j < d && #[trigger] npv[i][j]
                    implies self.neighborhoods@[i][j] by {
                    if !pv[i][j] {
                        assert(i == child && j != child && cur.contains(j as usize));
                        assert(old(self).examined().unwrap() == cur);
                        assert(old(self).neighborhoods()[child as int][j]);
                    }
                }
            }
        }
    }

    /// Drop the listed parents of `i` (the pruning pass after the search).
    pub fn remove_parents(&mut self, i: usize, non_parents: &Vec<usize>)
        requires
            old(self).wf(),
            i < old(self).size(),
            forall|a: int| 0 <= a < non_parents@.len() ==> #[trigger] non_parents@[a] < old(self).size(),
        ensures
            final(self).wf(),
            final(self).knowledge() == old(self).knowledge(),
            final(self).neighborhoods() == old(self).neighborhoods(),
            final(self).size() == old(self).size(),
            final(self).limit() == old(self).limit(),
            final(self).finished() == old(self).finished(),
            forall|r: int, j: int| 0 <= r < old(self).size() && 0 <= j < old(self).size() ==>
                #[trigger] final(self).parent_view()[r][j] == (old(self).parent_view()[r][j]
                    && !(r == i && non_parents@.contains(j as usize))),
    {
        let ghost pv = self.parent_view();
        let ghost d = self.d as nat;
        let mut row = crate::bootstrap::copy_flags(&self.parents[i]);
        assert(pv[i as int] == self.parents@[i as int]@);
        let mut k: usize = 0;
        while k < non_parents.len()
            invariant
                k <= non_parents@.len(),
                i < d,
                row@.len() == d,
                pv[i as int].len() == d,
                forall|a: int| 0 <= a < non_parents@.len() ==> #[trigger] non_parents@[a] < d,
                forall|j: usize| j < d ==> #[trigger] row@[j as int] == (pv[i as int][j as int]
                    && !non_parents@.take(k as int).contains(j)),
            decreases non_parents@.len() - k,
        {
            let j = non_parents[k];
            let ghost before = row@;
            row.set(j, false);
            proof {
                let tk = non_parents@.take(k as int);
                let tk1 = non_parents@.take(k + 1);
                assert(tk1 =~= tk.push(j));
                assert forall|x: usize| x < d implies #[trigger] row@[x as int] == (pv[i as int][x as int]
                    && !tk1.contains(x)) by {
                    assert(before[x as int] == (pv[i as int][x as int] && !tk.contains(x)));
                    if tk.contains(x) {
                        let q = choose|q: int| 0 <= q < tk.len() && tk[q] == x;
                        assert(tk1[q] == x);
                    }
                    if tk1.contains(x) && x != j {
                        let q = choose|q: int| 0 <= q < tk1.len() && tk1[q] == x;
                        assert(q != k);
                        assert(tk[q] == x);
                    }
                    if x == j {
                        assert(tk1[k as int] == x);
                    }
                }
            }
            k = k + 1;
        }
        assert(non_parents@.take(non_parents@.len() as int) =~= non_parents@);
        let ghost old_parents = self.parents@;
        self.parents.set(i, row);
        proof {
            let npv = self.parent_view();
            assert forall|r: int| 0 <= r < d implies #[trigger] npv[r].len() == d by {
                if r != i {
                    assert(npv[r] == pv[r]);
                }
            }
            assert forall|r: int, j: int| 0 <= r < d && 0 <= j < d implies #[trigger] npv[r][j] == (pv[r][j]
                && !(r == i && non_parents@.contains(j as usize))) by {
                if r != i {
                    assert(npv[r] == old_parents[r]@);
                }
            }
            assert forall|r: int| 0 <= r < d implies !#[trigger] npv[r][r] by {
                if r != i {
                    assert(npv[r] == pv[r]);
                }
            }
            assert forall|r: int, j: int| 0 <= r < d && 0 <= j < d implies !(#[trigger] npv[r][j] && #[trigger] npv[j][r]) by {
                if r != i {
                    assert(npv[r] == pv[r]);
                }
                if j != i {
                    assert(npv[j] == pv[j]);
                }
            }
            if self.has_current {
                let cur = self.current@;
                assert forall|a: int, b: int| 0 <= a < b < cur.len()
                    implies !npv[#[trigger] cur[a] as int][#[trigger] cur[b] as int] && !npv[cur[b] as int][cur[a] as int] by {
                    assert(!pv[cur[a] as int][cur[b] as int] && !pv[cur[b] as int][cur[a] as int]);
                }
            }
        }
    }

    /// The parents of `i`, in increasing order.
    pub fn parents_of(&self, i: usize) -> (r: Vec<usize>)
        requires
            self.wf(),
            i < self.size(),
        ensures
            strictly_increasing(r@),
            forall|a: int| 0 <= a < r@.len() ==> #[trigger] r@[a] < self.size(),
            forall|j: usize| j < self.size() ==> (#[trigger] r@.contains(j) <==> self.parent_view()[i as int][j as int]),
    {
        assert(self.parent_view()[i as int] == self.parents@[i as int]@);
        crate::bootstrap::members(&self.parents[i])
    }

    /// The parent pattern found so far.
    pub fn parents(&self) -> (r: &Vec<Vec<bool>>)
        ensures
            crate::bootstrap::pattern_view(r@) == self.parent_view(),
    {
        &self.parents
    }
}

/// Every state of the parent search keeps a parent pattern: no variable is
/// its own parent and no two variables are each other's parent.
pub proof fn lemma_parent_search_keeps_pattern(s: ParentSearch)
    requires
        s.wf(),
    ensures
        is_parent_pattern(s.parent_view(), s.size()),
{
}

/// Every pass of the parent search runs over exactly the `set_size()`-element
/// subsets of the variables in increasing lexicographic order: the list that
/// `combinations(size(), set_size())` returns (see
/// `lemma_combination_list_unique`).
pub proof fn lemma_pass_is_all_sets(s: ParentSearch)
    requires
        s.wf(),
    ensures
        lists_combinations(s.size(), s.set_size(), Seq::empty(), false, 0, s.pass_view()),
        s.set_size() >= 2,
{
}

/// Every state of the parent search keeps each parent within its child's
/// neighbourhood: a recorded parent `x_j` of `x_i` was found dependent on it.
pub proof fn lemma_parent_search_within_neighborhoods(s: ParentSearch)
    requires
        s.wf(),
    ensures
        within_neighborhoods(s.parent_view(), s.size(), s.neighborhoods()),
{
}

/// Every state of the parent search honours the prior knowledge: no recorded
/// parent `x_j` of `x_i` is one that a `(j, i)` pair forbids.
pub proof fn lemma_parent_search_respects_knowledge(s: ParentSearch)
    requires
        s.wf(),
    ensures
        respects_knowledge(s.parent_view(), s.size(), s.knowledge()),
{
}


/// The test on pair `pairs[k]` found its two variables dependent, in either
/// orientation of `(a, b)`.
pub open spec fn tested_dependent(pairs: Seq<(usize, usize)>, dependent: Seq<bool>, a: int, b: int) -> bool {
    exists|k: int| #![trigger pairs[k]] 0 <= k < pairs.len() && dependent[k]
        && ((pairs[k].0 == a && pairs[k].1 == b) || (pairs[k].0 == b && pairs[k].1 == a))
}


/// Neighbourhoods read off the pairwise tests are symmetric; every pair
/// found dependent is marked on both sides, and a marked pair was found
/// dependent in one orientation or the other.
pub proof fn lemma_neighborhoods_follow_tests(d: nat, pairs: Seq<(usize, usize)>, dependent: Seq<bool>, nb: Seq<Seq<bool>>)
    requires
        pairs.len() == dependent.len(),
        forall|k: int| #![trigger pairs[k]] 0 <= k < pairs.len() ==> pairs[k].0 < d && pairs[k].1 < d,
        forall|a: int, b: int| 0 <= a < d && 0 <= b < d ==>
            (#[trigger] nb[a][b] <==> tested_dependent(pairs, dependent, a, b)),
    ensures
        forall|a: int, b: int| 0 <= a < d && 0 <= b < d ==> #[trigger] nb[a][b] == nb[b][a],
        forall|k: int| 0 <= k < pairs.len() && #[trigger] dependent[k]
            ==> nb[pairs[k].0 as int][pairs[k].1 as int] && nb[pairs[k].1 as int][pairs[k].0 as int],
        forall|a: int, b: int| 0 <= a < d && 0 <= b < d && #[trigger] nb[a][b] ==> exists|k: int|
            0 <= k < pairs.len() && #[trigger] dependent[k] && (pairs[k] == (a as usize, b as usize)
                || pairs[k] == (b as usize, a as usize)),
{
    assert forall|a: int, b: int| 0 <= a < d && 0 <= b < d implies #[trigger] nb[a][b] == nb[b][a] by {
        if tested_dependent(pairs, dependent, a, b) {
            let k = choose|k: int| #![trigger pairs[k]] 0 <= k < pairs.len() && dependent[k]
                && ((pairs[k].0 == a && pairs[k].1 == b) || (pairs[k].0 == b && pairs[k].1 == a));
            assert(tested_dependent(pairs, dependent, b, a));
        }
        if tested_dependent(pairs, dependent, b, a) {
            let k = choose|k: int| #![trigger pairs[k]] 0 <= k < pairs.len() && dependent[k]
                && ((pairs[k].0 == b && pairs[k].1 == a) || (pairs[k].0 == a && pairs[k].1 == b));
            assert(tested_dependent(pairs, dependent, a, b));
        }
    }
    assert forall|k: int| 0 <= k < pairs.len() && #[trigger] dependent[k]
        implies nb[pairs[k].0 as int][pairs[k].1 as int] && nb[pairs[k].1 as int][pairs[k].0 as int] by {
        assert(tested_dependent(pairs, dependent, pairs[k].0 as int, pairs[k].1 as int));
        assert(tested_dependent(pairs, dependent, pairs[k].1 as int, pairs[k].0 as int));
    }
    assert forall|a: int, b: int| 0 <= a < d && 0 <= b < d && #[trigger] nb[a][b] implies exists|k: int|
        0 <= k < pairs.len() && #[trigger] dependent[k] && (pairs[k] == (a as usize, b as usize)
            || pairs[k] == (b as usize, a as usize)) by {
        let k = choose|k: int| #![trigger pairs[k]] 0 <= k < pairs.len() && dependent[k]
            && ((pairs[k].0 == a && pairs[k].1 == b) || (pairs[k].0 == b && pairs[k].1 == a));
        assert(dependent[k]);
    }
}
/// The neighbourhoods from the outcomes of the pairwise tests: `x_a` and
/// `x_b` are neighbours when the test on their pair found them dependent.
pub fn neighborhoods_from_tests(d: usize, pairs: &Vec<(usize, usize)>, dependent: &Vec<bool>) -> (nb: Vec<Vec<bool>>)
    requires
        pairs@.len() == dependent@.len(),
        forall|k: int| #![trigger pairs@[k]] 0 <= k < pairs@.len() ==> pairs@[k].0 < d && pairs@[k].1 < d,
    ensures
        is_square_bool(crate::bootstrap::pattern_view(nb@), d as nat),
        forall|a: int, b: int| 0 <= a < d && 0 <= b < d ==>
            (#[trigger] nb@[a]@[b] <==> tested_dependent(pairs@, dependent@, a, b)),
        forall|a: int, b: int| 0 <= a < d && 0 <= b < d ==> #[trigger] nb@[a]@[b] == nb@[b]@[a],
        forall|k: int| 0 <= k < pairs@.len() && #[trigger] dependent@[k]
            ==> nb@[pairs@[k].0 as int]@[pairs@[k].1 as int] && nb@[pairs@[k].1 as int]@[pairs@[k].0 as int],
        forall|a: int, b: int| 0 <= a < d && 0 <= b < d && #[trigger] nb@[a]@[b] ==> exists|k: int|
            0 <= k < pairs@.len() && #[trigger] dependent@[k] && (pairs@[k] == (a as usize, b as usize)
                || pairs@[k] == (b as usize, a as usize)),
{
    let mut nb: Vec<Vec<bool>> = Vec::new();
    let mut i: usize = 0;
    while i < d
        invariant
            i <= d,
            nb@.len() == i,
            forall|k: int| 0 <= k < i ==> #[trigger] nb@[k]@.len() == d,
            forall|k: int, j: int| 0 <= k < i && 0 <= j < d ==> !#[trigger] nb@[k]@[j],
        decreases d - i,
    {
        let mut row: Vec<bool> = Vec::new();
        let mut j: usize = 0;
        while j < d
            invariant
                j <= d,
                row@.len() == j,
                forall|q: int| 0 <= q < j ==> !#[trigger] row@[q],
            decreases d - j,
        {
            row.push(false);
            j = j + 1;
        }
        nb.push(row);
        i = i + 1;
    }
    let mut k: usize = 0;
    while k < pairs.len()
        invariant
            k <= pairs@.len(),
            pairs@.len() == dependent@.len(),
            forall|q: int| #![trigger pairs@[q]] 0 <= q < pairs@.len() ==> pairs@[q].0 < d && pairs@[q].1 < d,
            nb@.len() == d,
            forall|r: int| 0 <= r < d ==> #[trigger] nb@[r]@.len() == d,
            forall|a: int, b: int| 0 <= a < d && 0 <= b < d ==>
                (#[trigger] nb@[a]@[b] <==> tested_dependent(pairs@.take(k as int), dependent@.take(k as int), a, b)),
        decreases pairs@.len() - k,
    {
        let (x, y) = pairs[k];
        let ghost before = nb@;
        if dependent[k] {
            let mut rx = crate::bootstrap::copy_flags(&nb[x]);
            rx.set(y, true);
            nb.set(x, rx);
            let mut ry = crate::bootstrap::copy_flags(&nb[y]);
            ry.set(x, true);
            nb.set(y, ry);
        }
        proof {
            let pt = pairs@.take(k + 1);
            let dt = dependent@.take(k + 1);
            assert forall|a: int, b: int| 0 <= a < d && 0 <= b < d implies
                (#[trigger] nb@[a]@[b] <==> tested_dependent(pt, dt, a, b)) by {
                let hit = dependent@[k as int] && ((x == a && y == b) || (x == b && y == a));
                assert(pt[k as int] == (x, y));
                assert(dt[k as int] == dependent@[k as int]);
                if tested_dependent(pairs@.take(k as int), dependent@.take(k as int), a, b) {
                    let q = choose|q: int| #![trigger pairs@.take(k as int)[q]] 0 <= q < k && dependent@.take(k as int)[q]
                        && ((pairs@.take(k as int)[q].0 == a && pairs@.take(k as int)[q].1 == b)
                            || (pairs@.take(k as int)[q].0 == b && pairs@.take(k as int)[q].1 == a));
                    assert(pt[q] == pairs@.take(k as int)[q]);
                    assert(dt[q] == dependent@.take(k as int)[q]);
                }
                if tested_dependent(pt, dt, a, b) {
                    let q = choose|q: int| #![trigger pt[q]] 0 <= q < k + 1 && dt[q]
                        && ((pt[q].0 == a && pt[q].1 == b) || (pt[q].0 == b && pt[q].1 == a));
                    if q < k {
                        assert(pairs@.take(k as int)[q] == pt[q]);
                        assert(dependent@.take(k as int)[q] == dt[q]);
                    }
                }
                if a != x && a != y {
                    assert(nb@[a] == before[a]);
                }
            }
        }
        k = k + 1;
    }
    assert(pairs@.take(pairs@.len() as int) =~= pairs@);
    assert(dependent@.take(dependent@.len() as int) =~= dependent@);
    proof {
        lemma_neighborhoods_follow_tests(d as nat, pairs@, dependent@,
            Seq::new(d as nat, |a: int| Seq::new(d as nat, |b: int| nb@[a]@[b])));
        assert forall|a: int, b: int| 0 <= a < d && 0 <= b < d implies #[trigger] nb@[a]@[b] == nb@[b]@[a] by {
            assert(nb@[a]@[b] == tested_dependent(pairs@, dependent@, a, b));
            assert(nb@[b]@[a] == tested_dependent(pairs@, dependent@, b, a));
        }
    }
    nb
}

/// The members of `set` other than `c`, in order.
pub fn without(set: &Vec<usize>, c: usize) -> (r: Vec<usize>)
    ensures
        r@ == set@.filter(crate::direct_lingam::neq_pred(c)),
{
    let mut r: Vec<usize> = Vec::new();
    let mut a: usize = 0;
    assert(set@.take(0) =~= Seq::<usize>::empty());
    proof { reveal_with_fuel(Seq::<_>::filter, 1); }
    while a < set.len()
        invariant
            a <= set@.len(),
            r@ == set@.take(a as int).filter(crate::direct_lingam::neq_pred(c)),
        decreases set@.len() - a,
    {
        assert(set@.take(a + 1) =~= set@.take(a as int).push(set@[a as int]));
        proof { set@.take(a as int).lemma_filter_push(set@[a as int], crate::direct_lingam::neq_pred(c)); }
        if set[a] != c {
            r.push(set[a]);
        }
        a = a + 1;
    }
    assert(set@.take(set@.len() as int) =~= set@);
    r
}

/// `child` may be examined as the child of `set`: no other member is
/// forbidden as its cause, and every other member is its neighbour.
pub open spec fn eligible_child(
    pk: Option<Seq<(i64, i64)>>,
    nb: Seq<Seq<bool>>,
    set: Seq<usize>,
    child: usize,
) -> bool {
    let others = set.filter(crate::direct_lingam::neq_pred(child));
    &&& !(pk.is_some() && exists|a: int| 0 <= a < others.len()
        && #[trigger] forbids(pk.unwrap(), others[a] as int, child as int))
    &&& forall|a: int| 0 <= a < others.len() ==> #[trigger] nb[child as int][others[a] as int]
}

pub open spec fn eligible_pred(pk: Option<Seq<(i64, i64)>>, nb: Seq<Seq<bool>>, set: Seq<usize>) -> spec_fn(usize) -> bool {
    |c: usize| eligible_child(pk, nb, set, c)
}

/// The knowledge's pairs, if any.
pub open spec fn knowledge_pairs(pk: Option<&PriorKnowledge>) -> Option<Seq<(i64, i64)>> {
    match pk {
        Some(p) => Some(p.forbidden()),
        None => None,
    }
}

/// The members of `set` that may be examined as its child, in order: those
/// that `check_prior_knowledge` lets the others cause and that
/// `check_correlation` finds neighbours of all the others.
pub fn eligible_children(
    set: &Vec<usize>,
    neighborhoods: &Vec<Vec<bool>>,
    pk: Option<&PriorKnowledge>,
) -> (r: Vec<usize>)
    requires
        is_square_bool(crate::bootstrap::pattern_view(neighborhoods@), neighborhoods@.len() as nat),
        forall|a: int| 0 <= a < set@.len() ==> #[trigger] set@[a] < neighborhoods@.len(),
    ensures
        r@ == set@.filter(eligible_pred(knowledge_pairs(pk), crate::bootstrap::pattern_view(neighborhoods@), set@)),
{
    let ghost nv = crate::bootstrap::pattern_view(neighborhoods@);
    let ghost pred = eligible_pred(knowledge_pairs(pk), nv, set@);
    let mut r: Vec<usize> = Vec::new();
    let mut a: usize = 0;
    assert(set@.take(0) =~= Seq::<usize>::empty());
    proof { reveal_with_fuel(Seq::<_>::filter, 1); }
    while a < set.len()
        invariant
            a <= set@.len(),
            nv == crate::bootstrap::pattern_view(neighborhoods@),
            pred == eligible_pred(knowledge_pairs(pk), nv, set@),
            is_square_bool(nv, neighborhoods@.len() as nat),
            forall|q: int| 0 <= q < set@.len() ==> #[trigger] set@[q] < neighborhoods@.len(),
            r@ == set@.take(a as int).filter(pred),
        decreases set@.len() - a,
    {
        assert(set@.take(a + 1) =~= set@.take(a as int).push(set@[a as int]));
        proof { set@.take(a as int).lemma_filter_push(set@[a as int], pred); }
        let child = set[a];
        let parents = without(set, child);
        proof {
            assert forall|q: int| 0 <= q < parents@.len() implies #[trigger] parents@[q] < neighborhoods@.len() by {
                set@.lemma_filter_contains_rev(crate::direct_lingam::neq_pred(child), parents@[q]);
            }
        }
        let forbidden = check_prior_knowledge(pk, &parents, child);
        let correlated = check_correlation(child, &parents, neighborhoods);
        proof {
            let kp = knowledge_pairs(pk);
            assert(kp.is_some() == pk.is_some());
            if pk.is_some() {
                assert(kp.unwrap() == pk.unwrap().forbidden());
            }
            assert(forbidden == (kp.is_some() && exists|q: int| 0 <= q < parents@.len()
                && #[trigger] forbids(kp.unwrap(), parents@[q] as int, child as int)));
            assert(correlated == forall|q: int| 0 <= q < parents@.len() ==> #[trigger] nv[child as int][parents@[q] as int]) by {
                assert(nv[child as int] == neighborhoods@[child as int]@);
            }
            assert(pred(child) == (!forbidden && correlated));
        }
        if !forbidden && correlated {
            r.push(child);
        }
        a = a + 1;
    }
    assert(set@.take(set@.len() as int) =~= set@);
    r
}

/// The regressors of `child` when it is examined as the child of `set`: the other members of `set` and
/// the known parents of `child`, in increasing order.
pub fn explanatory_columns(child: usize, set: &Vec<usize>, parents: &Vec<Vec<bool>>) -> (r: Vec<usize>)
    requires
        child < parents@.len(),
        is_square_bool(crate::bootstrap::pattern_view(parents@), parents@.len() as nat),
    ensures
        strictly_increasing(r@),
        forall|a: int| 0 <= a < r@.len() ==> #[trigger] r@[a] < parents@.len(),
        forall|j: usize| j < parents@.len() ==> (#[trigger] r@.contains(j) <==>
            ((j != child && set@.contains(j)) || parents@[child as int]@[j as int])),
{
    let d = parents.len();
    let ghost pv = crate::bootstrap::pattern_view(parents@);
    assert(pv[child as int] == parents@[child as int]@);
    let mut r: Vec<usize> = Vec::new();
    let mut j: usize = 0;
    while j < d
        invariant
            d == parents@.len(),
            j <= d,
            child < d,
            parents@[child as int]@.len() == d,
            strictly_increasing(r@),
            forall|a: int| 0 <= a < r@.len() ==> #[trigger] r@[a] < j,
            forall|x: usize| x < j ==> (#[trigger] r@.contains(x) <==>
                ((x != child && set@.contains(x)) || parents@[child as int]@[x as int])),
        decreases d - j,
    {
        let in_set = crate::direct_lingam::index_in(set, j);
        let selected = (j != child && in_set) || parents[child][j];
        let ghost old_r = r@;
        if selected {
            r.push(j);
        }
        proof {
            assert forall|x: usize| x < j + 1 implies (#[trigger] r@.contains(x) <==>
                ((x != child && set@.contains(x)) || parents@[child as int]@[x as int])) by {
                if x == j {
                    if selected {
                        assert(r@[old_r.len() as int] == x);
                    } else if r@.contains(x) {
                        let a = choose|a: int| 0 <= a < r@.len() && r@[a] == x;
                        assert(old_r[a] < j);
                    }
                } else {
                    if old_r.contains(x) {
                        let a = choose|a: int| 0 <= a < old_r.len() && old_r[a] == x;
                        assert(r@[a] == x);
                    }
                    if r@.contains(x) {
                        let a = choose|a: int| 0 <= a < r@.len() && r@[a] == x;
                        if a < old_r.len() {
                            assert(old_r[a] == x);
                        }
                    }
                }
            }
        }
        j = j + 1;
    }
    r
}

/// The pair `(i, j)`, `i < j`, is a confounder candidate: neither is a parent
/// of the other, and they are mutual neighbours.
pub open spec fn confounder_candidate(p: Seq<Seq<bool>>, nb: Seq<Seq<bool>>, i: int, j: int) -> bool {
    !(p[j][i] || p[i][j]) && nb[j][i] && nb[i][j]
}

/// The pairs `(i, j)`, `i < j`, that `fit` tests for a shared latent
/// confounder, in row-major order.
pub fn confounder_candidates(parents: &Vec<Vec<bool>>, neighborhoods: &Vec<Vec<bool>>) -> (r: Vec<(usize, usize)>)
    requires
        is_square_bool(crate::bootstrap::pattern_view(parents@), parents@.len() as nat),
        is_square_bool(crate::bootstrap::pattern_view(neighborhoods@), parents@.len() as nat),
    ensures
        forall|k: int| #![trigger r@[k]] 0 <= k < r@.len() ==> r@[k].0 < r@[k].1 && r@[k].1 < parents@.len()
            && confounder_candidate(crate::bootstrap::pattern_view(parents@),
                crate::bootstrap::pattern_view(neighborhoods@), r@[k].0 as int, r@[k].1 as int),
        forall|k: int, l: int| 0 <= k < l < r@.len() ==> crate::util::index_pair_lt(#[trigger] r@[k], #[trigger] r@[l]),
        forall|i: usize, j: usize| i < j < parents@.len() && confounder_candidate(crate::bootstrap::pattern_view(parents@),
            crate::bootstrap::pattern_view(neighborhoods@), i as int, j as int) ==> #[trigger] r@.contains((i, j)),
        candidates_follow_patterns(crate::bootstrap::pattern_view(parents@),
            crate::bootstrap::pattern_view(neighborhoods@), parents@.len() as nat, r@),
{
    let d = parents.len();
    let ghost pv = crate::bootstrap::pattern_view(parents@);
    let ghost nv = crate::bootstrap::pattern_view(neighborhoods@);
    let mut r: Vec<(usize, usize)> = Vec::new();
    let mut i: usize = 0;
    while i < d
        invariant
            d == parents@.len(),
            i <= d,
            pv == crate::bootstrap::pattern_view(parents@),
            nv == crate::bootstrap::pattern_view(neighborhoods@),
            is_square_bool(pv, d as nat),
            is_square_bool(nv, d as nat),
            forall|k: int| #![trigger r@[k]] 0 <= k < r@.len() ==> r@[k].0 < r@[k].1 && r@[k].1 < d && r@[k].0 < i
                && confounder_candidate(pv, nv, r@[k].0 as int, r@[k].1 as int),
            forall|k: int, l: int| 0 <= k < l < r@.len() ==> crate::util::index_pair_lt(#[trigger] r@[k], #[trigger] r@[l]),
            forall|x: usize, y: usize| x < y < d && x < i && confounder_candidate(pv, nv, x as int, y as int)
                ==> #[trigger] r@.contains((x, y)),
        decreases d - i,
    {
        let mut j: usize = i + 1;
        while j < d
            invariant
                d == parents@.len(),
                i < d,
                i + 1 <= j <= d,
                pv == crate::bootstrap::pattern_view(parents@),
                nv == crate::bootstrap::pattern_view(neighborhoods@),
                is_square_bool(pv, d as nat),
                is_square_bool(nv, d as nat),
                forall|k: int| #![trigger r@[k]] 0 <= k < r@.len() ==> r@[k].0 < r@[k].1 && r@[k].1 < d
                    && (r@[k].0 < i || (r@[k].0 == i && r@[k].1 < j))
                    && confounder_candidate(pv, nv, r@[k].0 as int, r@[k].1 as int),
                forall|k: int, l: int| 0 <= k < l < r@.len() ==> crate::util::index_pair_lt(#[trigger] r@[k], #[trigger] r@[l]),
                forall|x: usize, y: usize| x < y < d && (x < i || (x == i && y < j))
                    && confounder_candidate(pv, nv, x as int, y as int) ==> #[trigger] r@.contains((x, y)),
            decreases d - j,
        {
            assert(pv[i as int] == parents@[i as int]@ && pv[j as int] == parents@[j as int]@);
            assert(nv[i as int] == neighborhoods@[i as int]@ && nv[j as int] == neighborhoods@[j as int]@);
            let ghost prev = r@;
            if !(parents[j][i] || parents[i][j]) && neighborhoods[j][i] && neighborhoods[i][j] {
                r.push((i, j));
                proof {
                    assert forall|x: usize, y: usize| x < y < d && (x < i || (x == i && y < j + 1))
                        && confounder_candidate(pv, nv, x as int, y as int) implies #[trigger] r@.contains((x, y)) by {
                        if x == i && y == j {
                            assert(r@[prev.len() as int] == (x, y));
                        } else {
                            assert(prev.contains((x, y)));
                            let k = choose|k: int| 0 <= k < prev.len() && prev[k] == (x, y);
                            assert(r@[k] == (x, y));
                        }
                    }
                }
            }
            j = j + 1;
        }
        i = i + 1;
    }
    proof {
        lemma_candidates_follow_patterns(crate::bootstrap::pattern_view(parents@),
            crate::bootstrap::pattern_view(neighborhoods@), parents@.len() as nat, r@);
    }
    r
}

/// The confounder candidates, by the patterns: a listed pair `(i, j)` has
/// `i < j`, no parent relation in either direction and each a neighbour of
/// the other; and every such pair is listed.
pub open spec fn candidates_follow_patterns(p: Seq<Seq<bool>>, nb: Seq<Seq<bool>>, d: nat, r: Seq<(usize, usize)>) -> bool {
    &&& forall|k: int| #![trigger r[k]] 0 <= k < r.len() ==> {
        let (i, j) = r[k];
        &&& i < j < d
        &&& !p[i as int][j as int] && !p[j as int][i as int]
        &&& nb[i as int][j as int] && nb[j as int][i as int]
    }
    &&& forall|i: usize, j: usize| i < j < d && !p[i as int][j as int] && !p[j as int][i as int]
        && nb[i as int][j as int] && nb[j as int][i as int] ==> #[trigger] r.contains((i, j))
}

/// A pair with a known direct edge, in either direction, is never tested for
/// a latent confounder, and every mutually dependent pair without one is.
pub proof fn lemma_candidates_follow_patterns(p: Seq<Seq<bool>>, nb: Seq<Seq<bool>>, d: nat, r: Seq<(usize, usize)>)
    requires
        forall|k: int| #![trigger r[k]] 0 <= k < r.len() ==> r[k].0 < r[k].1 && r[k].1 < d
            && confounder_candidate(p, nb, r[k].0 as int, r[k].1 as int),
        forall|i: usize, j: usize| i < j < d && confounder_candidate(p, nb, i as int, j as int)
            ==> #[trigger] r.contains((i, j)),
    ensures
        candidates_follow_patterns(p, nb, d, r),
{
}

/// An entry of the CAMUV adjacency matrix.
#[derive(Clone, Copy, Debug, PartialEq, Eq, Structural)]
pub enum EdgeMark {
    /// No relation (`0`).
    Absent,
    /// The column variable is a direct cause of the row variable (`1`).
    Direct,
    /// The two variables are suspected to share a latent confounder (`NaN`).
    Confounded,
}

/// The entry at `(a, b)`: confounded when the test on the candidate pair of
/// `a` and `b` found their residuals dependent, a direct edge when `x_b` is a
/// parent of `x_a`, absent otherwise.
pub open spec fn adjacency_entry(
    p: Seq<Seq<bool>>,
    candidates: Seq<(usize, usize)>,
    confounded: Seq<bool>,
    a: int,
    b: int,
) -> EdgeMark {
    if tested_dependent(candidates, confounded, a, b) {
        EdgeMark::Confounded
    } else if p[a][b] {
        EdgeMark::Direct
    } else {
        EdgeMark::Absent
    }
}

/// The adjacency marks, by the parents and the confounder tests: a pair is
/// marked confounded (on both sides) exactly when the test on it found its
/// residuals dependent; otherwise `[i][j]` is a direct edge exactly when
/// `x_j` is a parent of `x_i`, and absent otherwise.
pub open spec fn marks_follow_tests(
    p: Seq<Seq<bool>>,
    candidates: Seq<(usize, usize)>,
    confounded: Seq<bool>,
    d: nat,
    b: Seq<Seq<EdgeMark>>,
) -> bool {
    forall|i: int, j: int| 0 <= i < d && 0 <= j < d ==> {
        let tested = exists|k: int| 0 <= k < candidates.len() && #[trigger] confounded[k]
            && ((candidates[k].0 == i && candidates[k].1 == j) || (candidates[k].0 == j && candidates[k].1 == i));
        &&& (#[trigger] b[i][j] == EdgeMark::Confounded) <==> tested
        &&& (b[i][j] == EdgeMark::Direct) <==> (!tested && p[i][j])
        &&& (b[i][j] == EdgeMark::Absent) <==> (!tested && !p[i][j])
    }
}

/// The marks of `adjacency_marks` follow the parents and the tests as
/// `marks_follow_tests` says.
pub proof fn lemma_marks_follow_tests(
    p: Seq<Seq<bool>>,
    candidates: Seq<(usize, usize)>,
    confounded: Seq<bool>,
    d: nat,
    b: Seq<Seq<EdgeMark>>,
)
    requires
        forall|i: int, j: int| 0 <= i < d && 0 <= j < d ==> #[trigger] b[i][j]
            == adjacency_entry(p, candidates, confounded, i, j),
    ensures
        marks_follow_tests(p, candidates, confounded, d, b),
{
    assert forall|i: int, j: int| 0 <= i < d && 0 <= j < d implies {
        let tested = exists|k: int| 0 <= k < candidates.len() && #[trigger] confounded[k]
            && ((candidates[k].0 == i && candidates[k].1 == j) || (candidates[k].0 == j && candidates[k].1 == i));
        &&& (#[trigger] b[i][j] == EdgeMark::Confounded) <==> tested
        &&& (b[i][j] == EdgeMark::Direct) <==> (!tested && p[i][j])
        &&& (b[i][j] == EdgeMark::Absent) <==> (!tested && !p[i][j])
    } by {
        let tested = exists|k: int| 0 <= k < candidates.len() && #[trigger] confounded[k]
            && ((candidates[k].0 == i && candidates[k].1 == j) || (candidates[k].0 == j && candidates[k].1 == i));
        if tested_dependent(candidates, confounded, i, j) {
            let k = choose|k: int| #![trigger candidates[k]] 0 <= k < candidates.len() && confounded[k]
                && ((candidates[k].0 == i && candidates[k].1 == j) || (candidates[k].0 == j && candidates[k].1 == i));
            assert(confounded[k]);
        }
        if tested {
            let k = choose|k: int| 0 <= k < candidates.len() && #[trigger] confounded[k]
                && ((candidates[k].0 == i && candidates[k].1 == j) || (candidates[k].0 == j && candidates[k].1 == i));
            assert(tested_dependent(candidates, confounded, i, j));
        }
    }
}

/// The CAMUV adjacency pattern from the
/// parent pattern and the outcomes of the confounder tests.
pub fn adjacency_marks(
    parents: &Vec<Vec<bool>>,
    candidates: &Vec<(usize, usize)>,
    confounded: &Vec<bool>,
) -> (b: Vec<Vec<EdgeMark>>)
    requires
        is_square_bool(crate::bootstrap::pattern_view(parents@), parents@.len() as nat),
        candidates@.len() == confounded@.len(),
        forall|k: int| #![trigger candidates@[k]] 0 <= k < candidates@.len()
            ==> candidates@[k].0 < parents@.len() && candidates@[k].1 < parents@.len(),
    ensures
        b@.len() == parents@.len(),
        forall|i: int| 0 <= i < b@.len() ==> #[trigger] b@[i]@.len() == parents@.len(),
        forall|i: int, j: int| 0 <= i < parents@.len() && 0 <= j < parents@.len() ==> #[trigger] b@[i]@[j]
            == adjacency_entry(crate::bootstrap::pattern_view(parents@), candidates@, confounded@, i, j),
        marks_follow_tests(crate::bootstrap::pattern_view(parents@), candidates@, confounded@,
            parents@.len() as nat, Seq::new(b@.len(), |i: int| b@[i]@)),
{
    let d = parents.len();
    let ghost pv = crate::bootstrap::pattern_view(parents@);
    let nb = neighborhoods_from_tests(d, candidates, confounded);
    let mut b: Vec<Vec<EdgeMark>> = Vec::new();
    let mut i: usize = 0;
    while i < d
        invariant
            d == parents@.len(),
            i <= d,
            pv == crate::bootstrap::pattern_view(parents@),
            is_square_bool(pv, d as nat),
            is_square_bool(crate::bootstrap::pattern_view(nb@), d as nat),
            forall|x: int, y: int| 0 <= x < d && 0 <= y < d ==>
                (#[trigger] nb@[x]@[y] <==> tested_dependent(candidates@, confounded@, x, y)),
            b@.len() == i,
            forall|k: int| 0 <= k < i ==> #[trigger] b@[k]@.len() == d,
            forall|x: int, y: int| 0 <= x < i && 0 <= y < d ==> #[trigger] b@[x]@[y]
                == adjacency_entry(pv, candidates@, confounded@, x, y),
        decreases d - i,
    {
        let mut row: Vec<EdgeMark> = Vec::new();
        let mut j: usize = 0;
        assert(pv[i as int] == parents@[i as int]@);
        assert(crate::bootstrap::pattern_view(nb@)[i as int] == nb@[i as int]@);
        while j < d
            invariant
                d == parents@.len(),
                i < d,
                j <= d,
                pv == crate::bootstrap::pattern_view(parents@),
                pv[i as int] == parents@[i as int]@,
                parents@[i as int]@.len() == d,
                nb@.len() == d,
                nb@[i as int]@.len() == d,
                forall|y: int| 0 <= y < d ==>
                    (#[trigger] nb@[i as int]@[y] <==> tested_dependent(candidates@, confounded@, i as int, y)),
                row@.len() == j,
                forall|y: int| 0 <= y < j ==> #[trigger] row@[y] == adjacency_entry(pv, candidates@, confounded@, i as int, y),
            decreases d - j,
        {
            let m = if nb[i][j] {
                EdgeMark::Confounded
            } else if parents[i][j] {
                EdgeMark::Direct
            } else {
                EdgeMark::Absent
            };
            row.push(m);
            j = j + 1;
        }
        b.push(row);
        i = i + 1;
    }
    proof {
        assert forall|i: int, j: int| 0 <= i < parents@.len() && 0 <= j < parents@.len() implies
            #[trigger] crate::bootstrap::pattern_view(parents@)[i][j] == parents@[i]@[j] by {}
        lemma_marks_follow_tests(crate::bootstrap::pattern_view(parents@), candidates@, confounded@,
            parents@.len() as nat, Seq::new(b@.len(), |i: int| b@[i]@));
    }
    b
}

/// A suspected latent confounder is marked on both sides: the adjacency
/// entry at `(a, b)` is `Confounded` exactly when the one at `(b, a)` is, and
/// a confounded pair carries no direct edge either way.
pub proof fn lemma_confounded_marks_symmetric(
    p: Seq<Seq<bool>>,
    candidates: Seq<(usize, usize)>,
    confounded: Seq<bool>,
    a: int,
    b: int,
)
    ensures
        (adjacency_entry(p, candidates, confounded, a, b) == EdgeMark::Confounded)
            <==> (adjacency_entry(p, candidates, confounded, b, a) == EdgeMark::Confounded),
        adjacency_entry(p, candidates, confounded, a, b) == EdgeMark::Confounded
            ==> adjacency_entry(p, candidates, confounded, a, b) != EdgeMark::Direct
            && adjacency_entry(p, candidates, confounded, b, a) != EdgeMark::Direct,
{
    if tested_dependent(candidates, confounded, a, b) {
        let k = choose|k: int| #![trigger candidates[k]] 0 <= k < candidates.len() && confounded[k]
            && ((candidates[k].0 == a && candidates[k].1 == b) || (candidates[k].0 == b && candidates[k].1 == a));
        assert(tested_dependent(candidates, confounded, b, a));
    }
    if tested_dependent(candidates, confounded, b, a) {
        let k = choose|k: int| #![trigger candidates[k]] 0 <= k < candidates.len() && confounded[k]
            && ((candidates[k].0 == b && candidates[k].1 == a) || (candidates[k].0 == a && candidates[k].1 == b));
        assert(tested_dependent(candidates, confounded, a, b));
    }
}

} // verus!
