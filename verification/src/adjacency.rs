//! Which regressors the adjacency and total-effect estimates use; the
//! regressions themselves are the caller's.

use vstd::prelude::*;
use crate::direct_lingam::PriorKnowledge;

verus! {

/// `q` may regress `target`: without prior knowledge always; with it, unless
/// `q` is `target` itself or the matrix states that `x_q` has no path to
/// `x_target`.
pub open spec fn usable_predictor(knowledge: Option<Seq<Seq<i64>>>, target: usize, q: usize) -> bool {
    match knowledge {
        None => true,
        Some(pk) => q != target && pk[target as int][q as int] != 0,
    }
}

pub open spec fn usable_pred(knowledge: Option<Seq<Seq<i64>>>, target: usize) -> spec_fn(usize) -> bool {
    |q: usize| usable_predictor(knowledge, target, q)
}

/// The knowledge matrix, if any.
pub open spec fn knowledge_matrix(prior: Option<&PriorKnowledge>) -> Option<Seq<Seq<i64>>> {
    match prior {
        Some(p) => Some(p.matrix()),
        None => None,
    }
}

/// The regressors of the variable at position
/// `i` of the causal order, namely the variables before it, less those that
/// the prior knowledge excludes.
pub fn adjacency_predictors(order: &Vec<usize>, i: usize, prior: Option<&PriorKnowledge>) -> (r: Vec<usize>)
    requires
        i < order@.len(),
        prior matches Some(p) ==> p.wf() && forall|a: int| 0 <= a < order@.len() ==> #[trigger] order@[a] < p.matrix().len(),
    ensures
        r@ == order@.take(i as int).filter(usable_pred(knowledge_matrix(prior), order@[i as int])),
        prior is None ==> r@ == order@.take(i as int),
        prior matches Some(p) ==> forall|q: usize| #[trigger] r@.contains(q) <==> (order@.take(i as int).contains(q)
            && q != order@[i as int] && p.matrix()[order@[i as int] as int][q as int] != 0),
{
    let target = order[i];
    let ghost pred = usable_pred(knowledge_matrix(prior), target);
    let mut r: Vec<usize> = Vec::new();
    let mut a: usize = 0;
    assert(order@.take(0) =~= Seq::<usize>::empty());
    proof { reveal_with_fuel(Seq::<_>::filter, 1); }
    while a < i
        invariant
            a <= i,
            i < order@.len(),
            target == order@[i as int],
            pred == usable_pred(knowledge_matrix(prior), target),
            prior matches Some(p) ==> p.wf() && forall|q: int| 0 <= q < order@.len() ==> #[trigger] order@[q] < p.matrix().len(),
            r@ == order@.take(a as int).filter(pred),
        decreases i - a,
    {
        let q = order[a];
        assert(order@.take(a + 1) =~= order@.take(a as int).push(q));
        proof { order@.take(a as int).lemma_filter_push(q, pred); }
        let keep = match prior {
            None => true,
            Some(p) => {
                let m = p.entries();
                proof {
                    assert(crate::util::rows_view(m@)[target as int] == m@[target as int]@);
                }
                q != target && m[target][q] != 0
            },
        };
        if keep {
            r.push(q);
        }
        a = a + 1;
    }
    assert(order@.take(i as int).take(i as int) =~= order@.take(i as int));
    proof {
        match prior {
            None => lemma_no_knowledge_keeps_all(order@, i as int, r@),
            Some(p) => lemma_regressors_follow_knowledge(order@, i as int, p.matrix(), r@),
        }
    }
    r
}

/// With prior knowledge `pk`, a variable `q` placed before the target is a
/// regressor of the target exactly when it is not the target and
/// `pk[target][q] != 0`: a "no path" entry `pk[target][q] == 0` prunes it,
/// an unknown (negative) entry keeps it, and the reverse entry
/// `pk[q][target]` plays no part.
pub proof fn lemma_regressors_follow_knowledge(order: Seq<usize>, i: int, pk: Seq<Seq<i64>>, r: Seq<usize>)
    requires
        0 <= i < order.len(),
        r == order.take(i).filter(usable_pred(Some(pk), order[i])),
    ensures
        forall|q: usize| #[trigger] r.contains(q) <==> (order.take(i).contains(q) && q != order[i]
            && pk[order[i] as int][q as int] != 0),
{
    assert forall|q: usize| #[trigger] r.contains(q) <==> (order.take(i).contains(q) && q != order[i]
        && pk[order[i] as int][q as int] != 0) by {
        crate::util::lemma_filter_member(order.take(i), usable_pred(Some(pk), order[i]), q);
    }
}

/// Without prior knowledge every variable placed before the target is a
/// regressor of it.
pub proof fn lemma_no_knowledge_keeps_all(order: Seq<usize>, i: int, r: Seq<usize>)
    requires
        0 <= i < order.len(),
        r == order.take(i).filter(usable_pred(None, order[i])),
    ensures
        r == order.take(i),
    decreases i,
{
    let t = order.take(i);
    assert forall|a: int| 0 <= a < t.len() implies usable_pred(None, order[i])(#[trigger] t[a]) by {}
    crate::direct_lingam::lemma_filter_all_pass(t, usable_pred(None, order[i]));
}

/// Position of the first occurrence of `x` in `order`.
pub open spec fn is_first_position(order: Seq<usize>, x: usize, pos: int) -> bool {
    &&& 0 <= pos < order.len()
    &&& order[pos] == x
    &&& forall|q: int| 0 <= q < pos ==> #[trigger] order[q] != x
}

fn first_position(order: &Vec<usize>, x: usize) -> (pos: usize)
    requires
        order@.contains(x),
    ensures
        is_first_position(order@, x, pos as int),
{
    let mut pos: usize = 0;
    while pos < order.len() && order[pos] != x
        invariant
            pos <= order@.len(),
            order@.contains(x),
            forall|q: int| 0 <= q < pos ==> #[trigger] order@[q] != x,
        decreases order@.len() - pos,
    {
        pos = pos + 1;
    }
    if pos >= order.len() {
        proof {
            let q = choose|q: int| 0 <= q < order@.len() && order@[q] == x;
            assert(order@[q] != x);
        }
    }
    pos
}

/// `estimate_total_effect`: the regressors, `from_index` followed by every
/// variable `k` with a nonzero coefficient `B[from_index][k]` (given as
/// `nonzero_row`), and whether `from_index` comes no later than `to_index` in
/// the causal order.
pub fn total_effect_predictors(
    order: &Vec<usize>,
    from_index: usize,
    to_index: usize,
    nonzero_row: &Vec<bool>,
) -> (r: (Vec<usize>, bool))
    requires
        order@.contains(from_index),
        order@.contains(to_index),
    ensures
        r.0@.len() >= 1,
        r.0@[0] == from_index,
        r.0@.drop_first() == crate::bootstrap::members_spec(nonzero_row@),
        r.1 <==> exists|a: int, b: int| is_first_position(order@, from_index, a) && is_first_position(order@, to_index, b) && a <= b,
{
    let a = first_position(order, from_index);
    let b = first_position(order, to_index);
    let mut preds: Vec<usize> = Vec::new();
    preds.push(from_index);
    let rest = crate::bootstrap::members(nonzero_row);
    let mut k: usize = 0;
    while k < rest.len()
        invariant
            k <= rest@.len(),
            preds@.len() == k + 1,
            preds@[0] == from_index,
            preds@.drop_first() == rest@.take(k as int),
        decreases rest@.len() - k,
    {
        preds.push(rest[k]);
        assert(preds@.drop_first() =~= rest@.take(k + 1));
        k = k + 1;
    }
    assert(rest@.take(rest@.len() as int) =~= rest@);
    proof {
        assert forall|a2: int, b2: int| is_first_position(order@, from_index, a2) && is_first_position(order@, to_index, b2)
            implies a2 == a && b2 == b by {
            if a2 < a { assert(order@[a2] != from_index); }
            if a < a2 { assert(order@[a as int] != from_index); }
            if b2 < b { assert(order@[b2] != to_index); }
            if b < b2 { assert(order@[b as int] != to_index); }
        }
    }
    (preds, a <= b)
}

} // verus!
