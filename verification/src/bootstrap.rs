//! Directed-path enumeration over a thresholded adjacency pattern, and the
//! integer bookkeeping behind the bootstrap summaries (edge and DAG counts,
//! rankings). The coefficients themselves and their medians are the
//! caller's.

use vstd::prelude::*;
use crate::direct_lingam::distinct;
use crate::util::{lemma_occurrences_concat, index_lex_lt, lemma_first_difference_orders, rows_view, occurrences, ranked_counts, is_ranked_count};

verus! {

/// `hits` is an `n` by `n` pattern.
pub open spec fn is_square_pattern(hits: Seq<Seq<bool>>, n: nat) -> bool {
    &&& hits.len() == n
    &&& forall|i: int| 0 <= i < n ==> #[trigger] hits[i].len() == n
}

/// The rows of a boolean matrix, each taken by its view.
pub open spec fn pattern_view(hits: Seq<Vec<bool>>) -> Seq<Seq<bool>> {
    hits.map_values(|r: Vec<bool>| r@)
}

/// Each step of `p` is an edge of the pattern: `hits[i][j]` stands for the
/// edge `j -> i`.
pub open spec fn follows_edges(hits: Seq<Seq<bool>>, p: Seq<usize>) -> bool {
    forall|i: int| #![trigger p[i]] 0 <= i < p.len() - 1 ==> hits[p[i + 1] as int][p[i] as int]
}

/// `p` is a directed path without repeated nodes from `from` to `to`.
pub open spec fn is_simple_path(hits: Seq<Seq<bool>>, from: usize, to: usize, p: Seq<usize>) -> bool {
    &&& p.len() >= 1
    &&& p[0] == from
    &&& p[p.len() - 1] == to
    &&& distinct(p)
    &&& forall|i: int| 0 <= i < p.len() ==> #[trigger] p[i] < hits.len()
    &&& follows_edges(hits, p)
}

/// `stack` is a prefix of `p`.
pub open spec fn extends(stack: Seq<usize>, p: Seq<usize>) -> bool {
    stack.len() <= p.len() && p.take(stack.len() as int) == stack
}

/// `ps` lists, in increasing lexicographic order, the simple paths from `from`
/// to `to` that extend `stack` and whose node after the prefix is below `bound`
/// (when `limited`; all of them otherwise).
pub open spec fn lists_extensions(
    hits: Seq<Seq<bool>>,
    from: usize,
    to: usize,
    stack: Seq<usize>,
    limited: bool,
    bound: usize,
    ps: Seq<Seq<usize>>,
) -> bool {
    &&& forall|k: int| #![trigger ps[k]] 0 <= k < ps.len() ==> {
        &&& is_simple_path(hits, from, to, ps[k])
        &&& extends(stack, ps[k])
        &&& limited ==> ps[k].len() > stack.len() && ps[k][stack.len() as int] < bound
    }
    &&& forall|a: int, b: int| 0 <= a < b < ps.len() ==> index_lex_lt(#[trigger] ps[a], #[trigger] ps[b])
    &&& forall|p: Seq<usize>|
        is_simple_path(hits, from, to, p) && extends(stack, p)
            && (limited ==> p.len() > stack.len() && p[stack.len() as int] < bound)
            ==> #[trigger] ps.contains(p)
}

/// The index lists of a list of paths, each taken by its view.
pub open spec fn paths_view(ps: Seq<Vec<usize>>) -> Seq<Seq<usize>> {
    ps.map_values(|p: Vec<usize>| p@)
}

/// Number of `false` entries.
pub open spec fn count_false(v: Seq<bool>) -> nat
    decreases v.len(),
{
    if v.len() == 0 {
        0
    } else {
        (if !v[0] { 1nat } else { 0nat }) + count_false(v.drop_first())
    }
}

proof fn lemma_count_false_update(v: Seq<bool>, i: int)
    requires
        0 <= i < v.len(),
        !v[i],
    ensures
        count_false(v.update(i, true)) + 1 == count_false(v),
    decreases v.len(),
{
    if i > 0 {
        lemma_count_false_update(v.drop_first(), i - 1);
        assert(v.update(i, true).drop_first() =~= v.drop_first().update(i - 1, true));
    } else {
        assert(v.update(i, true).drop_first() =~= v.drop_first());
    }
}

fn dfs(
    hits: &Vec<Vec<bool>>,
    cur: usize,
    to: usize,
    stack: &mut Vec<usize>,
    on_path: &mut Vec<bool>,
    paths: &mut Vec<Vec<usize>>,
    Ghost(from): Ghost<usize>,
)
    requires
        is_square_pattern(pattern_view(hits@), hits@.len() as nat),
        old(stack)@.len() >= 1,
        old(stack)@[0] == from,
        old(stack)@[old(stack)@.len() - 1] == cur,
        cur < hits@.len(),
        distinct(old(stack)@),
        forall|i: int| 0 <= i < old(stack)@.len() ==> #[trigger] old(stack)@[i] < hits@.len(),
        follows_edges(pattern_view(hits@), old(stack)@),
        old(on_path)@.len() == hits@.len(),
        forall|x: usize| x < hits@.len() ==> (#[trigger] old(on_path)@[x as int] <==> old(stack)@.contains(x)),
    ensures
        final(stack)@ == old(stack)@,
        final(on_path)@ == old(on_path)@,
        final(paths)@.len() >= old(paths)@.len(),
        final(paths)@.take(old(paths)@.len() as int) == old(paths)@,
        lists_extensions(
            pattern_view(hits@),
            from,
            to,
            old(stack)@,
            false,
            0,
            paths_view(final(paths)@).skip(old(paths)@.len() as int),
        ),
    decreases count_false(old(on_path)@),
{
    let ghost h = pattern_view(hits@);
    let ghost st = stack@;
    let ghost op = on_path@;
    let ghost base = paths@;
    let ghost l = st.len() as int;
    let n = hits.len();
    if cur == to {
        let found = crate::direct_lingam::copy_indices(stack);
        paths.push(found);
        proof {
            let ps = paths_view(paths@).skip(base.len() as int);
            assert(ps.len() == 1);
            assert(ps[0] == st);
            assert(st.take(l as int) =~= st);
            assert forall|p: Seq<usize>| is_simple_path(h, from, to, p) && extends(st, p)
                implies #[trigger] ps.contains(p) by {
                if p.len() > l {
                    assert(p[l - 1] == st[l - 1]);
                    assert(p[l - 1] == p[p.len() - 1]);
                }
                assert(p =~= st);
            }
            assert(paths@.take(base.len() as int) =~= base);
        }
        return;
    }
    let mut k: usize = 0;
    proof {
        assert(paths_view(paths@).skip(base.len() as int) =~= Seq::<Seq<usize>>::empty());
        assert(paths@.take(base.len() as int) =~= base);
    }
    while k < n
        invariant
            n == hits@.len(),
            h == pattern_view(hits@),
            is_square_pattern(h, n as nat),
            k <= n,
            stack@ == st,
            on_path@ == op,
            op == old(on_path)@,
            l == st.len(),
            l >= 1,
            st[0] == from,
            st[l - 1] == cur,
            cur != to,
            cur < n,
            distinct(st),
            forall|i: int| 0 <= i < st.len() ==> #[trigger] st[i] < n,
            follows_edges(h, st),
            op.len() == n,
            forall|x: usize| x < n ==> (#[trigger] op[x as int] <==> st.contains(x)),
            paths@.len() >= base.len(),
            paths@.take(base.len() as int) == base,
            lists_extensions(h, from, to, st, true, k, paths_view(paths@).skip(base.len() as int)),
        decreases n - k,
    {
        let ghost before = paths@;
        assert(h[k as int] == hits@[k as int]@);
        if hits[k][cur] && !on_path[k] {
            stack.push(k);
            on_path.set(k, true);
            proof {
                assert(on_path@ == op.update(k as int, true));
                lemma_count_false_update(op, k as int);
                assert forall|x: usize| x < n implies (#[trigger] on_path@[x as int] <==> stack@.contains(x)) by {
                    if x == k {
                        assert(stack@[l as int] == k);
                    } else {
                        if st.contains(x) {
                            let i = choose|i: int| 0 <= i < st.len() && st[i] == x;
                            assert(stack@[i] == x);
                        }
                        if stack@.contains(x) {
                            let i = choose|i: int| 0 <= i < stack@.len() && stack@[i] == x;
                            assert(i < l);
                            assert(st[i] == x);
                        }
                    }
                }
                assert(distinct(stack@)) by {
                    assert forall|a: int, b: int| 0 <= a < stack@.len() && 0 <= b < stack@.len() && a != b
                        implies #[trigger] stack@[a] != #[trigger] stack@[b] by {
                        if a == l {
                            assert(!st.contains(k));
                            if stack@[a] == stack@[b] {
                                assert(st[b] == k);
                            }
                        } else if b == l {
                            assert(!st.contains(k));
                            if stack@[a] == stack@[b] {
                                assert(st[a] == k);
                            }
                        }
                    }
                }
                assert(follows_edges(h, stack@)) by {
                    assert forall|i: int| #![trigger stack@[i]] 0 <= i < stack@.len() - 1
                        implies h[stack@[i + 1] as int][stack@[i] as int] by {
                        if i == l - 1 {
                            assert(stack@[i] == cur);
                            assert(stack@[i + 1] == k);
                        } else {
                            assert(stack@[i] == st[i]);
                            assert(stack@[i + 1] == st[i + 1]);
                        }
                    }
                }
            }
            dfs(hits, k, to, stack, on_path, paths, Ghost(from));
            on_path.set(k, false);
            stack.pop();
            proof {
                assert(on_path@ =~= op);
                assert(stack@ =~= st);
                let old_ps = paths_view(before).skip(base.len() as int);
                let added = paths_view(paths@).skip(before.len() as int);
                let ps = paths_view(paths@).skip(base.len() as int);
                assert(ps =~= old_ps + added) by {
                    assert forall|q: int| 0 <= q < ps.len() implies #[trigger] ps[q] == (old_ps + added)[q] by {
                        if q < old_ps.len() {
                            assert(paths@[base.len() + q] == paths@.take(before.len() as int)[base.len() + q]);
                        }
                    }
                }
                assert(paths@.take(base.len() as int) =~= base) by {
                    assert forall|q: int| 0 <= q < base.len() implies #[trigger] paths@[q] == base[q] by {
                        assert(paths@[q] == paths@.take(before.len() as int)[q]);
                        assert(before[q] == before.take(base.len() as int)[q]);
                    }
                }
                lemma_extensions_step(h, from, to, st, k, old_ps, added);
            }
        } else {
            proof {
                let ps = paths_view(paths@).skip(base.len() as int);
                assert forall|p: Seq<usize>|
                    is_simple_path(h, from, to, p) && extends(st, p) && (p.len() > l && p[l as int] < k + 1)
                    implies #[trigger] ps.contains(p) by {
                    if p[l as int] == k {
                        assert(p[l - 1] == st[l - 1]);
                        assert(h[p[l as int] as int][p[l - 1] as int]);
                        assert(!hits@[k as int]@[cur as int] || on_path@[k as int]);
                        if on_path@[k as int] {
                            assert(st.contains(k));
                            let i = choose|i: int| 0 <= i < st.len() && st[i] == k;
                            assert(p[i] == st[i]);
                        }
                    }
                }
            }
        }
        k = k + 1;
    }
    proof {
        let ps = paths_view(paths@).skip(base.len() as int);
        assert forall|p: Seq<usize>| is_simple_path(h, from, to, p) && extends(st, p)
            implies #[trigger] ps.contains(p) by {
            if p.len() == l {
                assert(p =~= st);
                assert(p[p.len() - 1] == cur);
            }
            assert(p[l as int] < n);
        }
    }
}

/// Adding the extensions through `k` to those through smaller successors.
proof fn lemma_extensions_step(
    h: Seq<Seq<bool>>,
    from: usize,
    to: usize,
    st: Seq<usize>,
    k: usize,
    old_ps: Seq<Seq<usize>>,
    added: Seq<Seq<usize>>,
)
    requires
        st.len() >= 1,
        k < usize::MAX,
        lists_extensions(h, from, to, st, true, k, old_ps),
        lists_extensions(h, from, to, st.push(k), false, 0, added),
    ensures
        lists_extensions(h, from, to, st, true, (k + 1) as usize, old_ps + added),
{
    let l = st.len() as int;
    let ps = old_ps + added;
    let ext = st.push(k);
    assert forall|q: int| #![trigger added[q]] 0 <= q < added.len()
        implies extends(st, added[q]) && added[q].len() > l && added[q][l as int] == k by {
        let p = added[q];
        assert(p.take(l + 1) == ext);
        assert(p[l as int] == p.take(l + 1)[l as int]);
        assert(p.take(l as int) =~= p.take(l + 1).take(l as int));
        assert(ext.take(l as int) =~= st);
    }
    assert forall|q: int| #![trigger ps[q]] 0 <= q < ps.len() implies {
        &&& is_simple_path(h, from, to, ps[q])
        &&& extends(st, ps[q])
        &&& ps[q].len() > l && ps[q][l as int] < k + 1
    } by {
        if q >= old_ps.len() {
            assert(ps[q] == added[q - old_ps.len()]);
        }
    }
    assert forall|a: int, b: int| 0 <= a < b < ps.len() implies index_lex_lt(#[trigger] ps[a], #[trigger] ps[b]) by {
        if b < old_ps.len() {
        } else if a >= old_ps.len() {
            assert(ps[a] == added[a - old_ps.len()]);
            assert(ps[b] == added[b - old_ps.len()]);
        } else {
            assert(ps[b] == added[b - old_ps.len()]);
            let pa = ps[a];
            let pb = ps[b];
            assert(pa.take(l as int) == st);
            assert(pb.take(l as int) == st);
            lemma_first_difference_orders(pa, pb, l as int);
        }
    }
    assert forall|p: Seq<usize>|
        is_simple_path(h, from, to, p) && extends(st, p) && (p.len() > l && p[l as int] < k + 1)
        implies #[trigger] ps.contains(p) by {
        if p[l as int] < k {
            assert(old_ps.contains(p));
            let q = choose|q: int| 0 <= q < old_ps.len() && old_ps[q] == p;
            assert(ps[q] == p);
        } else {
            assert(p.take(l + 1) =~= ext) by {
                assert forall|i: int| 0 <= i < l + 1 implies #[trigger] p.take(l + 1)[i] == ext[i] by {
                    if i < l {
                        assert(p.take(l as int)[i] == st[i]);
                    }
                }
            }
            assert(added.contains(p));
            let q = choose|q: int| 0 <= q < added.len() && added[q] == p;
            assert(ps[old_ps.len() + q] == p);
        }
    }
}

/// The paths of the edge pattern `hits`, where `hits[i][j]` stands for the
/// edge `j -> i` (the caller decides which coefficients count as edges):
/// every directed path without repeated nodes from `from_index` to
/// `to_index`, in increasing lexicographic order.
pub fn find_all_paths(hits: &Vec<Vec<bool>>, from_index: usize, to_index: usize) -> (paths: Vec<Vec<usize>>)
    requires
        is_square_pattern(pattern_view(hits@), hits@.len() as nat),
        from_index < hits@.len(),
    ensures
        lists_extensions(pattern_view(hits@), from_index, to_index, seq![from_index], false, 0, paths_view(paths@)),
        forall|k: int| #![trigger paths_view(paths@)[k]] 0 <= k < paths@.len()
            ==> is_simple_path(pattern_view(hits@), from_index, to_index, paths_view(paths@)[k]),
        forall|p: Seq<usize>| is_simple_path(pattern_view(hits@), from_index, to_index, p)
            ==> #[trigger] paths_view(paths@).contains(p),
{
    let n = hits.len();
    let mut on_path: Vec<bool> = Vec::new();
    let mut i: usize = 0;
    while i < n
        invariant
            i <= n,
            on_path@.len() == i,
            forall|x: int| 0 <= x < i ==> !#[trigger] on_path@[x],
        decreases n - i,
    {
        on_path.push(false);
        i = i + 1;
    }
    on_path.set(from_index, true);
    let mut stack: Vec<usize> = Vec::new();
    stack.push(from_index);
    let mut paths: Vec<Vec<usize>> = Vec::new();
    proof {
        assert forall|x: usize| x < n implies (#[trigger] on_path@[x as int] <==> stack@.contains(x)) by {
            if x == from_index {
                assert(stack@[0] == x);
            }
        }
    }
    dfs(hits, from_index, to_index, &mut stack, &mut on_path, &mut paths, Ghost(from_index));
    proof {
        let ps = paths_view(paths@);
        assert(paths_view(paths@).skip(0) =~= ps);
        assert forall|p: Seq<usize>| is_simple_path(pattern_view(hits@), from_index, to_index, p)
            implies #[trigger] ps.contains(p) by {
            assert(p.take(1) =~= seq![from_index]);
        }
    }
    paths
}


/// A copy of a row of flags.
pub fn copy_flags(v: &Vec<bool>) -> (r: Vec<bool>)
    ensures
        r@ == v@,
{
    let mut r: Vec<bool> = Vec::new();
    let mut i: usize = 0;
    while i < v.len()
        invariant
            i <= v@.len(),
            r@ == v@.take(i as int),
        decreases v@.len() - i,
    {
        r.push(v[i]);
        i = i + 1;
        assert(r@ =~= v@.take(i as int));
    }
    assert(v@.take(v@.len() as int) =~= v@);
    r
}

/// The positions of the set flags of `row`, in increasing order.
pub open spec fn members_spec(row: Seq<bool>) -> Seq<usize>
    decreases row.len(),
{
    if row.len() == 0 {
        Seq::empty()
    } else if row.last() {
        members_spec(row.drop_last()).push((row.len() - 1) as usize)
    } else {
        members_spec(row.drop_last())
    }
}

/// A strictly increasing list holding exactly the set positions of `row` is
/// `members_spec(row)`.
pub proof fn lemma_members_spec(row: Seq<bool>, r: Seq<usize>)
    requires
        crate::direct_lingam::strictly_increasing(r),
        forall|a: int| 0 <= a < r.len() ==> #[trigger] r[a] < row.len(),
        forall|j: usize| j < row.len() ==> (#[trigger] r.contains(j) <==> row[j as int]),
        row.len() <= usize::MAX,
    ensures
        r == members_spec(row),
    decreases row.len(),
{
    if row.len() == 0 {
        if r.len() > 0 {
            assert(r[0] < row.len());
        }
        assert(r =~= Seq::<usize>::empty());
    } else {
        let last = (row.len() - 1) as usize;
        let d = row.drop_last();
        if row.last() {
            assert(r.contains(last));
            let k = choose|k: int| 0 <= k < r.len() && r[k] == last;
            if k < r.len() - 1 {
                assert(r[k] < r[r.len() - 1]);
                assert(r[r.len() - 1] < row.len());
            }
            let rd = r.drop_last();
            assert forall|j: usize| j < d.len() implies (#[trigger] rd.contains(j) <==> d[j as int]) by {
                if r.contains(j) {
                    let q = choose|q: int| 0 <= q < r.len() && r[q] == j;
                    assert(q != r.len() - 1);
                    assert(rd[q] == j);
                }
                if rd.contains(j) {
                    let q = choose|q: int| 0 <= q < rd.len() && rd[q] == j;
                    assert(r[q] == j);
                }
            }
            assert forall|a: int| 0 <= a < rd.len() implies #[trigger] rd[a] < d.len() by {
                assert(r[a] < r[r.len() - 1]);
            }
            lemma_members_spec(d, rd);
            assert(r =~= rd.push(last));
        } else {
            assert forall|a: int| 0 <= a < r.len() implies #[trigger] r[a] < d.len() by {
                if r[a] == last {
                    assert(r.contains(last));
                }
            }
            assert forall|j: usize| j < d.len() implies (#[trigger] r.contains(j) <==> d[j as int]) by {}
            lemma_members_spec(d, r);
        }
    }
}

/// The positions of the set flags of `row`, in increasing order.
pub fn members(row: &Vec<bool>) -> (r: Vec<usize>)
    ensures
        crate::direct_lingam::strictly_increasing(r@),
        forall|a: int| 0 <= a < r@.len() ==> #[trigger] r@[a] < row@.len(),
        forall|j: usize| j < row@.len() ==> (#[trigger] r@.contains(j) <==> row@[j as int]),
        r@ == members_spec(row@),
{
    let len = row.len();
    let mut r: Vec<usize> = Vec::new();
    let mut j: usize = 0;
    while j < row.len()
        invariant
            j <= row@.len(),
            crate::direct_lingam::strictly_increasing(r@),
            forall|a: int| 0 <= a < r@.len() ==> #[trigger] r@[a] < j,
            forall|x: usize| x < j ==> (#[trigger] r@.contains(x) <==> row@[x as int]),
        decreases row@.len() - j,
    {
        if row[j] {
            let ghost old_r = r@;
            r.push(j);
            proof {
                assert forall|x: usize| x < j + 1 implies (#[trigger] r@.contains(x) <==> row@[x as int]) by {
                    if x == j {
                        assert(r@[old_r.len() as int] == x);
                    } else {
                        if old_r.contains(x) {
                            let a = choose|a: int| 0 <= a < old_r.len() && old_r[a] == x;
                            assert(r@[a] == x);
                        }
                        if r@.contains(x) {
                            let a = choose|a: int| 0 <= a < r@.len() && r@[a] == x;
                            assert(a < old_r.len());
                            assert(old_r[a] == x);
                        }
                    }
                }
            }
        } else {
            proof {
                assert forall|x: usize| x < j + 1 implies (#[trigger] r@.contains(x) <==> row@[x as int]) by {
                    if x == j && r@.contains(x) {
                        let a = choose|a: int| 0 <= a < r@.len() && r@[a] == x;
                        assert(r@[a] < j);
                    }
                }
            }
        }
        j = j + 1;
    }
    proof {
        lemma_members_spec(row@, r@);
    }
    r
}


/// The mark matrices of the resamples, each taken by its view: entry
/// `[s][i][j]` is `0` when resample `s` has no edge `j -> i`, and otherwise the
/// sign of its coefficient (`1` or `-1`; or any nonzero value).
pub open spec fn marks_view(marks: Seq<Vec<Vec<i64>>>) -> Seq<Seq<Seq<i64>>> {
    marks.map_values(|m: Vec<Vec<i64>>| rows_view(m@))
}

/// The direction row of an edge `j -> i`: `[i, j]`, or `[i, j, sign]` when
/// counting by sign.
pub open spec fn edge_row(i: int, j: int, mark: i64, split: bool) -> Seq<i64> {
    if split {
        seq![i as i64, j as i64, mark]
    } else {
        seq![i as i64, j as i64]
    }
}

/// Direction rows of the marked entries of row `i`, among its first `c` columns.
pub open spec fn row_edges(r: Seq<i64>, i: int, split: bool, c: nat) -> Seq<Seq<i64>>
    decreases c,
{
    if c == 0 || c > r.len() {
        Seq::empty()
    } else {
        row_edges(r, i, split, (c - 1) as nat) + (if r[c - 1] != 0 {
            seq![edge_row(i, c - 1, r[c - 1], split)]
        } else {
            Seq::empty()
        })
    }
}

/// Direction rows of the marked entries of the first `rc` rows of `m`, row by row.
pub open spec fn matrix_edges(m: Seq<Seq<i64>>, split: bool, rc: nat) -> Seq<Seq<i64>>
    decreases rc,
{
    if rc == 0 || rc > m.len() {
        Seq::empty()
    } else {
        matrix_edges(m, split, (rc - 1) as nat) + row_edges(m[rc - 1], rc - 1, split, m[rc - 1].len())
    }
}

/// Direction rows of the first `sc` resamples, resample by resample.
pub open spec fn sample_edges(marks: Seq<Seq<Seq<i64>>>, split: bool, sc: nat) -> Seq<Seq<i64>>
    decreases sc,
{
    if sc == 0 || sc > marks.len() {
        Seq::empty()
    } else {
        sample_edges(marks, split, (sc - 1) as nat) + matrix_edges(marks[sc - 1], split, marks[sc - 1].len())
    }
}

/// `get_causal_direction_counts`: the direction rows `[to, from]` (with the
/// sign appended when `split`) of every marked edge of every resample, ranked
/// by how many resamples hold them (ties in lexicographic order), cut to the
/// first `n_directions`.
pub fn causal_direction_counts(
    marks: &Vec<Vec<Vec<i64>>>,
    n_directions: Option<usize>,
    split: bool,
) -> (res: (Vec<Vec<i64>>, Vec<i64>))
    requires
        sample_edges(marks_view(marks@), split, marks@.len() as nat).len() < i64::MAX,
    ensures
        is_ranked_count(sample_edges(marks_view(marks@), split, marks@.len() as nat), n_directions,
            rows_view(res.0@), res.1@),
{
    let ghost mv = marks_view(marks@);
    let mut rows: Vec<Vec<i64>> = Vec::new();
    let mut s: usize = 0;
    while s < marks.len()
        invariant
            s <= marks@.len(),
            mv == marks_view(marks@),
            rows_view(rows@) == sample_edges(mv, split, s as nat),
        decreases marks@.len() - s,
    {
        let m = &marks[s];
        assert(mv[s as int] == rows_view(m@));
        let ghost base = rows_view(rows@);
        let mut i: usize = 0;
        while i < m.len()
            invariant
                i <= m@.len(),
                s < marks@.len(),
                m == &marks@[s as int],
                mv[s as int] == rows_view(m@),
                rows_view(rows@) == base + matrix_edges(rows_view(m@), split, i as nat),
            decreases m@.len() - i,
        {
            let r = &m[i];
            assert(rows_view(m@)[i as int] == r@);
            let ghost base2 = rows_view(rows@);
            let mut j: usize = 0;
            while j < r.len()
                invariant
                    j <= r@.len(),
                    r == &m@[i as int],
                    rows_view(rows@) == base2 + row_edges(r@, i as int, split, j as nat),
                decreases r@.len() - j,
            {
                let v = r[j];
                let ghost prev = rows_view(rows@);
                if v != 0 {
                    let row: Vec<i64> = if split {
                        vec![i as i64, j as i64, v]
                    } else {
                        vec![i as i64, j as i64]
                    };
                    assert(row@ =~= edge_row(i as int, j as int, v, split));
                    rows.push(row);
                    assert(rows_view(rows@) =~= prev.push(row@));
                }
                assert(rows_view(rows@) =~= base2 + row_edges(r@, i as int, split, (j + 1) as nat));
                j = j + 1;
            }
            assert(rows_view(rows@) =~= base + matrix_edges(rows_view(m@), split, (i + 1) as nat));
            i = i + 1;
        }
        assert(rows_view(rows@) =~= sample_edges(mv, split, (s + 1) as nat));
        s = s + 1;
    }
    ranked_counts(rows, n_directions)
}

/// The DAG key of one resample: its marks in row-major order, kept as signs
/// when `split` and reduced to `0`/`1` otherwise.
pub open spec fn dag_key(m: Seq<Seq<i64>>, p: nat, split: bool) -> Seq<i64> {
    Seq::new(p * p, |q: int| {
        let v = m[q / p as int][q % p as int];
        if split { v } else if v != 0 { 1i64 } else { 0i64 }
    })
}

proof fn lemma_row_major(i: int, j: int, p: int)
    requires
        0 <= i,
        0 <= j < p,
    ensures
        (i * p + j) / p == i,
        (i * p + j) % p == j,
{
    vstd::arithmetic::div_mod::lemma_fundamental_div_mod_converse(i * p + j, p, i, j);
}

/// `get_directed_acyclic_graph_counts`: the DAG keys of the resamples ranked
/// by how many resamples share them (ties in lexicographic order), cut to the
/// first `n_dags`.
pub fn dag_counts(
    marks: &Vec<Vec<Vec<i64>>>,
    p: usize,
    n_dags: Option<usize>,
    split: bool,
) -> (res: (Vec<Vec<i64>>, Vec<i64>))
    requires
        marks@.len() < i64::MAX,
        p * p <= usize::MAX,
        forall|s: int| 0 <= s < marks@.len() ==> crate::direct_lingam::is_square(#[trigger] marks_view(marks@)[s], p as nat),
    ensures
        is_ranked_count(
            Seq::new(marks@.len(), |s: int| dag_key(marks_view(marks@)[s], p as nat, split)),
            n_dags,
            rows_view(res.0@),
            res.1@,
        ),
{
    let ghost mv = marks_view(marks@);
    let ghost keys = Seq::new(marks@.len(), |s: int| dag_key(mv[s], p as nat, split));
    let mut flats: Vec<Vec<i64>> = Vec::new();
    let mut s: usize = 0;
    while s < marks.len()
        invariant
            s <= marks@.len(),
            mv == marks_view(marks@),
            p * p <= usize::MAX,
            forall|t: int| 0 <= t < marks@.len() ==> crate::direct_lingam::is_square(#[trigger] mv[t], p as nat),
            keys == Seq::new(marks@.len(), |t: int| dag_key(mv[t], p as nat, split)),
            flats@.len() == s,
            rows_view(flats@) == keys.take(s as int),
        decreases marks@.len() - s,
    {
        let m = &marks[s];
        assert(mv[s as int] == rows_view(m@));
        let ghost mm = rows_view(m@);
        let ghost target = dag_key(mm, p as nat, split);
        let mut flat: Vec<i64> = Vec::new();
        let mut i: usize = 0;
        while i < p
            invariant
                i <= p,
                p * p <= usize::MAX,
                mm == rows_view(m@),
                crate::direct_lingam::is_square(mm, p as nat),
                target == dag_key(mm, p as nat, split),
                flat@.len() == i * p,
                flat@ == target.take(i * p),
            decreases p - i,
        {
            assert(mm[i as int] == m@[i as int]@);
            let mut j: usize = 0;
            proof {
                assert(i * p + p <= p * p) by (nonlinear_arith)
                    requires i < p;
            }
            while j < p
                invariant
                    i < p,
                    j <= p,
                    i * p + p <= p * p,
                    p * p <= usize::MAX,
                    mm == rows_view(m@),
                    mm[i as int] == m@[i as int]@,
                    crate::direct_lingam::is_square(mm, p as nat),
                    target == dag_key(mm, p as nat, split),
                    flat@.len() == i * p + j,
                    flat@ == target.take(i * p + j),
                decreases p - j,
            {
                let v = m[i][j];
                let e: i64 = if split { v } else if v != 0 { 1 } else { 0 };
                proof {
                    lemma_row_major(i as int, j as int, p as int);
                    assert(target[i * p + j] == e);
                }
                flat.push(e);
                assert(flat@ =~= target.take(i * p + j + 1));
                j = j + 1;
            }
            assert(i * p + p == (i + 1) * p) by (nonlinear_arith);
            i = i + 1;
        }
        assert(target.take(p * p) =~= target);
        assert(keys[s as int] == target);
        let ghost prev = flats@;
        flats.push(flat);
        assert(rows_view(flats@) =~= keys.take(s + 1)) by {
            assert forall|q: int| 0 <= q < s + 1 implies #[trigger] rows_view(flats@)[q] == keys.take(s + 1)[q] by {
                if q < s {
                    assert(flats@[q] == prev[q]);
                    assert(rows_view(prev)[q] == prev[q]@);
                }
            }
        }
        s = s + 1;
    }
    assert(keys.take(marks@.len() as int) =~= keys);
    ranked_counts(flats, n_dags)
}

/// The edges of a DAG key: `(to, from, mark)` for each nonzero entry, in
/// row-major order.
pub open spec fn key_edges(key: Seq<i64>, p: nat, q: nat) -> Seq<(usize, usize, i64)>
    decreases q,
{
    if q == 0 || q > key.len() {
        Seq::empty()
    } else {
        key_edges(key, p, (q - 1) as nat) + (if key[q - 1] != 0 {
            seq![(((q - 1) / p as int) as usize, ((q - 1) % p as int) as usize, key[q - 1])]
        } else {
            Seq::empty()
        })
    }
}

/// Decode a DAG key into its `(to, from, mark)` edges, in row-major order.
pub fn dag_edges(key: &Vec<i64>, p: usize) -> (r: Vec<(usize, usize, i64)>)
    requires
        key@.len() == p * p,
        p * p <= usize::MAX,
    ensures
        r@ == key_edges(key@, p as nat, key@.len()),
{
    let mut r: Vec<(usize, usize, i64)> = Vec::new();
    let mut i: usize = 0;
    let mut pos: usize = 0;
    while i < p
        invariant
            i <= p,
            key@.len() == p * p,
            p * p <= usize::MAX,
            pos == i * p,
            r@ == key_edges(key@, p as nat, pos as nat),
        decreases p - i,
    {
        proof {
            assert(i * p + p <= p * p) by (nonlinear_arith)
                requires i < p;
        }
        let mut j: usize = 0;
        while j < p
            invariant
                i < p,
                j <= p,
                key@.len() == p * p,
                p * p <= usize::MAX,
                i * p + p <= p * p,
                pos == i * p + j,
                r@ == key_edges(key@, p as nat, pos as nat),
            decreases p - j,
        {
            let v = key[pos];
            proof {
                lemma_row_major(i as int, j as int, p as int);
            }
            if v != 0 {
                r.push((i, j, v));
            }
            assert(r@ =~= key_edges(key@, p as nat, (pos + 1) as nat));
            pos = pos + 1;
            j = j + 1;
        }
        assert(i * p + p == (i + 1) * p) by (nonlinear_arith);
        i = i + 1;
    }
    r
}


/// Number of the first `sc` resamples whose mark at `(i, j)` is nonzero.
pub open spec fn marked_count(marks: Seq<Seq<Seq<i64>>>, i: int, j: int, sc: nat) -> nat
    decreases sc,
{
    if sc == 0 || sc > marks.len() {
        0
    } else {
        marked_count(marks, i, j, (sc - 1) as nat) + (if marks[sc - 1][i][j] != 0 { 1nat } else { 0nat })
    }
}

/// `get_probabilities` and `get_total_causal_effects` before the division:
/// entry `[i][j]` is the number of resamples whose mark at `(i, j)` is nonzero.
pub fn edge_frequencies(marks: &Vec<Vec<Vec<i64>>>, p: usize) -> (counts: Vec<Vec<i64>>)
    requires
        marks@.len() < i64::MAX,
        forall|s: int| 0 <= s < marks@.len() ==> crate::direct_lingam::is_square(#[trigger] marks_view(marks@)[s], p as nat),
    ensures
        crate::direct_lingam::is_square(rows_view(counts@), p as nat),
        forall|i: int, j: int| 0 <= i < p && 0 <= j < p ==>
            #[trigger] rows_view(counts@)[i][j] == marked_count(marks_view(marks@), i, j, marks@.len() as nat),
{
    let ghost mv = marks_view(marks@);
    let mut counts: Vec<Vec<i64>> = Vec::new();
    let mut i: usize = 0;
    while i < p
        invariant
            i <= p,
            mv == marks_view(marks@),
            marks@.len() < i64::MAX,
            forall|s: int| 0 <= s < marks@.len() ==> crate::direct_lingam::is_square(#[trigger] mv[s], p as nat),
            counts@.len() == i,
            forall|a: int| 0 <= a < i ==> #[trigger] counts@[a]@.len() == p,
            forall|a: int, b: int| 0 <= a < i && 0 <= b < p ==>
                #[trigger] counts@[a]@[b] == marked_count(mv, a, b, marks@.len() as nat),
        decreases p - i,
    {
        let mut row: Vec<i64> = Vec::new();
        let mut j: usize = 0;
        while j < p
            invariant
                i < p,
                j <= p,
                mv == marks_view(marks@),
                marks@.len() < i64::MAX,
                forall|s: int| 0 <= s < marks@.len() ==> crate::direct_lingam::is_square(#[trigger] mv[s], p as nat),
                row@.len() == j,
                forall|b: int| 0 <= b < j ==> #[trigger] row@[b] == marked_count(mv, i as int, b, marks@.len() as nat),
            decreases p - j,
        {
            let mut c: i64 = 0;
            let mut s: usize = 0;
            while s < marks.len()
                invariant
                    i < p,
                    j < p,
                    s <= marks@.len(),
                    mv == marks_view(marks@),
                    marks@.len() < i64::MAX,
                    forall|t: int| 0 <= t < marks@.len() ==> crate::direct_lingam::is_square(#[trigger] mv[t], p as nat),
                    c == marked_count(mv, i as int, j as int, s as nat),
                    c <= s,
                decreases marks@.len() - s,
            {
                assert(mv[s as int] == rows_view(marks@[s as int]@));
                assert(mv[s as int][i as int] == marks@[s as int]@[i as int]@);
                if marks[s][i][j] != 0 {
                    c = c + 1;
                }
                s = s + 1;
            }
            row.push(c);
            j = j + 1;
        }
        counts.push(row);
        i = i + 1;
    }
    proof {
        assert forall|a: int| 0 <= a < p implies #[trigger] rows_view(counts@)[a].len() == p by {
            assert(rows_view(counts@)[a] == counts@[a]@);
        }
        assert forall|a: int, b: int| 0 <= a < p && 0 <= b < p implies
            #[trigger] rows_view(counts@)[a][b] == marked_count(mv, a, b, marks@.len() as nat) by {
            assert(rows_view(counts@)[a] == counts@[a]@);
        }
    }
    counts
}

/// The cell `x` ranks before the cell `y`: a larger count first, and among
/// equal counts the earlier cell in row-major order.
pub open spec fn cell_ranks_before(counts: Seq<Seq<i64>>, x: (usize, usize), y: (usize, usize)) -> bool {
    counts[x.0 as int][x.1 as int] > counts[y.0 as int][y.1 as int]
        || (counts[x.0 as int][x.1 as int] == counts[y.0 as int][y.1 as int] && crate::util::index_pair_lt(x, y))
}

/// The directions that `get_total_causal_effects` reports: every cell with a
/// positive count, ranked by count (ties in row-major order).
pub fn ranked_directions(counts: &Vec<Vec<i64>>) -> (dirs: Vec<(usize, usize)>)
    requires
        crate::direct_lingam::is_square(rows_view(counts@), counts@.len() as nat),
    ensures
        forall|k: int| #![trigger dirs@[k]] 0 <= k < dirs@.len() ==> dirs@[k].0 < counts@.len()
            && dirs@[k].1 < counts@.len() && rows_view(counts@)[dirs@[k].0 as int][dirs@[k].1 as int] > 0,
        forall|a: int, b: int| 0 <= a < b < dirs@.len()
            ==> cell_ranks_before(rows_view(counts@), #[trigger] dirs@[a], #[trigger] dirs@[b]),
        forall|i: usize, j: usize| i < counts@.len() && j < counts@.len() && rows_view(counts@)[i as int][j as int] > 0
            ==> #[trigger] dirs@.contains((i, j)),
{
    let p = counts.len();
    let ghost cv = rows_view(counts@);
    let mut cells: Vec<(usize, usize)> = Vec::new();
    let mut keys: Vec<i64> = Vec::new();
    let mut i: usize = 0;
    while i < p
        invariant
            p == counts@.len(),
            i <= p,
            cv == rows_view(counts@),
            crate::direct_lingam::is_square(cv, p as nat),
            cells@.len() == keys@.len(),
            forall|k: int| #![trigger cells@[k]] 0 <= k < cells@.len() ==> cells@[k].0 < i && cells@[k].1 < p
                && cv[cells@[k].0 as int][cells@[k].1 as int] > 0 && keys@[k] == cv[cells@[k].0 as int][cells@[k].1 as int],
            forall|k: int, l: int| 0 <= k < l < cells@.len() ==> crate::util::index_pair_lt(#[trigger] cells@[k], #[trigger] cells@[l]),
            forall|x: usize, y: usize| x < i && y < p && cv[x as int][y as int] > 0 ==> #[trigger] cells@.contains((x, y)),
        decreases p - i,
    {
        assert(cv[i as int] == counts@[i as int]@);
        let mut j: usize = 0;
        while j < p
            invariant
                p == counts@.len(),
                i < p,
                j <= p,
                cv == rows_view(counts@),
                cv[i as int] == counts@[i as int]@,
                crate::direct_lingam::is_square(cv, p as nat),
                cells@.len() == keys@.len(),
                forall|k: int| #![trigger cells@[k]] 0 <= k < cells@.len() ==> cells@[k].1 < p
                    && (cells@[k].0 < i || (cells@[k].0 == i && cells@[k].1 < j))
                    && cv[cells@[k].0 as int][cells@[k].1 as int] > 0 && keys@[k] == cv[cells@[k].0 as int][cells@[k].1 as int],
                forall|k: int, l: int| 0 <= k < l < cells@.len() ==> crate::util::index_pair_lt(#[trigger] cells@[k], #[trigger] cells@[l]),
                forall|x: usize, y: usize| (x < i || (x == i && y < j)) && y < p && cv[x as int][y as int] > 0
                    ==> #[trigger] cells@.contains((x, y)),
            decreases p - j,
        {
            let c = counts[i][j];
            if c > 0 {
                let ghost prev = cells@;
                cells.push((i, j));
                keys.push(c);
                proof {
                    assert forall|x: usize, y: usize| (x < i || (x == i && y < j + 1)) && y < p && cv[x as int][y as int] > 0
                        implies #[trigger] cells@.contains((x, y)) by {
                        if x == i && y == j {
                            assert(cells@[prev.len() as int] == (x, y));
                        } else {
                            assert(prev.contains((x, y)));
                            let k = choose|k: int| 0 <= k < prev.len() && prev[k] == (x, y);
                            assert(cells@[k] == (x, y));
                        }
                    }
                }
            }
            j = j + 1;
        }
        i = i + 1;
    }
    let order = crate::util::argsort_desc(keys.as_slice());
    let mut dirs: Vec<(usize, usize)> = Vec::new();
    let mut k: usize = 0;
    while k < order.len()
        invariant
            k <= order@.len(),
            crate::util::is_stable_desc_argsort(keys@, order@),
            cells@.len() == keys@.len(),
            dirs@.len() == k,
            forall|q: int| 0 <= q < k ==> #[trigger] dirs@[q] == cells@[order@[q] as int],
        decreases order@.len() - k,
    {
        dirs.push(cells[order[k]]);
        k = k + 1;
    }
    proof {
        assert forall|a: int, b: int| 0 <= a < b < dirs@.len()
            implies cell_ranks_before(cv, #[trigger] dirs@[a], #[trigger] dirs@[b]) by {
            let oa = order@[a] as int;
            let ob = order@[b] as int;
            assert(crate::util::ranks_before(keys@, oa, ob));
            if oa > ob {
                assert(crate::util::index_pair_lt(cells@[ob], cells@[oa]));
            }
        }
        assert forall|x: usize, y: usize| x < p && y < p && cv[x as int][y as int] > 0
            implies #[trigger] dirs@.contains((x, y)) by {
            assert(cells@.contains((x, y)));
            let c = choose|c: int| 0 <= c < cells@.len() && cells@[c] == (x, y);
            assert(order@.contains(c as usize));
            let q = choose|q: int| 0 <= q < order@.len() && order@[q] == c as usize;
            assert(dirs@[q] == (x, y));
        }
    }
    dirs
}


proof fn lemma_row_edges_count(r: Seq<i64>, i2: int, c: nat, i: int, j: int)
    requires
        c <= r.len(),
        0 <= i < i64::MAX,
        0 <= i2 < i64::MAX,
        0 <= j < i64::MAX,
        r.len() < i64::MAX,
    ensures
        occurrences(row_edges(r, i2, false, c), seq![i as i64, j as i64])
            == (if i2 == i && j < c && r[j] != 0 { 1nat } else { 0nat }),
    decreases c,
{
    let x = seq![i as i64, j as i64];
    if c > 0 {
        lemma_row_edges_count(r, i2, (c - 1) as nat, i, j);
        let tail = if r[c - 1] != 0 { seq![edge_row(i2, c - 1, r[c - 1], false)] } else { Seq::<Seq<i64>>::empty() };
        lemma_occurrences_concat(row_edges(r, i2, false, (c - 1) as nat), tail, x);
        if r[c - 1] != 0 {
            let e = edge_row(i2, c - 1, r[c - 1], false);
            assert(tail.drop_first() =~= Seq::<Seq<i64>>::empty());
            assert(occurrences(tail.drop_first(), x) == 0);
            assert(tail[0] == e);
            if i2 == i && c - 1 == j {
                assert(e =~= x);
            } else {
                if e == x {
                    assert(e[0] == x[0] && e[1] == x[1]);
                }
            }
            assert(occurrences(tail, x) == (if e == x { 1nat } else { 0nat }));
        } else {
            assert(occurrences(tail, x) == 0);
        }
        assert(row_edges(r, i2, false, c) == row_edges(r, i2, false, (c - 1) as nat) + tail);
    }
}

proof fn lemma_matrix_edges_count(m: Seq<Seq<i64>>, p: nat, rc: nat, i: int, j: int)
    requires
        crate::direct_lingam::is_square(m, p),
        p < i64::MAX,
        rc <= p,
        0 <= i < p,
        0 <= j < p,
    ensures
        occurrences(matrix_edges(m, false, rc), seq![i as i64, j as i64])
            == (if i < rc && m[i][j] != 0 { 1nat } else { 0nat }),
    decreases rc,
{
    let x = seq![i as i64, j as i64];
    if rc > 0 {
        lemma_matrix_edges_count(m, p, (rc - 1) as nat, i, j);
        lemma_occurrences_concat(matrix_edges(m, false, (rc - 1) as nat), row_edges(m[rc - 1], rc - 1, false, m[rc - 1].len()), x);
        lemma_row_edges_count(m[rc - 1], rc - 1, m[rc - 1].len(), i, j);
    }
}

/// The count that `causal_direction_counts` gives a direction `[to, from]`
/// (without signs) is the number of resamples holding that edge: the count
/// `edge_frequencies` gives the same cell.
pub proof fn lemma_direction_count_is_resample_count(marks: Seq<Seq<Seq<i64>>>, p: nat, sc: nat, i: int, j: int)
    requires
        forall|s: int| 0 <= s < marks.len() ==> crate::direct_lingam::is_square(#[trigger] marks[s], p),
        p < i64::MAX,
        sc <= marks.len(),
        0 <= i < p,
        0 <= j < p,
    ensures
        occurrences(sample_edges(marks, false, sc), seq![i as i64, j as i64]) == marked_count(marks, i, j, sc),
    decreases sc,
{
    let x = seq![i as i64, j as i64];
    if sc > 0 {
        lemma_direction_count_is_resample_count(marks, p, (sc - 1) as nat, i, j);
        let m = marks[sc - 1];
        lemma_occurrences_concat(sample_edges(marks, false, (sc - 1) as nat), matrix_edges(m, false, m.len()), x);
        lemma_matrix_edges_count(m, p, p, i, j);
    }
}


/// The decimal digits of `v`, as ASCII codes, most significant first.
pub open spec fn decimal(v: nat) -> Seq<i64>
    decreases v,
{
    if v < 10 {
        seq![(48 + v) as i64]
    } else {
        decimal(v / 10).push((48 + v % 10) as i64)
    }
}

/// The text of a path as `get_paths` keys it: the node numbers in decimal
/// joined by `_`, as ASCII codes.
pub open spec fn path_key(p: Seq<usize>) -> Seq<i64>
    decreases p.len(),
{
    if p.len() == 0 {
        Seq::empty()
    } else if p.len() == 1 {
        decimal(p[0] as nat)
    } else {
        path_key(p.drop_last()) + seq![95i64] + decimal(p.last() as nat)
    }
}

fn push_decimal(out: &mut Vec<i64>, v: usize)
    ensures
        final(out)@ == old(out)@ + decimal(v as nat),
    decreases v,
{
    if v >= 10 {
        push_decimal(out, v / 10);
    }
    let d = (v % 10) as i64;
    out.push(48 + d);
    proof {
        if v < 10 {
            assert(final(out)@ =~= old(out)@ + decimal(v as nat));
        }
    }
}

/// The key of path `p` (see `path_key`).
pub fn path_key_of(p: &Vec<usize>) -> (k: Vec<i64>)
    ensures
        k@ == path_key(p@),
{
    let mut k: Vec<i64> = Vec::new();
    let mut a: usize = 0;
    while a < p.len()
        invariant
            a <= p@.len(),
            k@ == path_key(p@.take(a as int)),
        decreases p@.len() - a,
    {
        let ghost t = p@.take(a + 1);
        assert(t.drop_last() =~= p@.take(a as int));
        if a > 0 {
            k.push(95);
        }
        push_decimal(&mut k, p[a]);
        proof {
            if a == 0 {
                assert(k@ =~= path_key(t));
            } else {
                assert(k@ =~= path_key(t));
            }
        }
        a = a + 1;
    }
    assert(p@.take(p@.len() as int) =~= p@);
    k
}

/// Every code of `decimal(v)` is a digit, and there is at least one.
proof fn lemma_decimal_digits(v: nat)
    ensures
        decimal(v).len() >= 1,
        forall|k: int| 0 <= k < decimal(v).len() ==> 48 <= #[trigger] decimal(v)[k] <= 57,
    decreases v,
{
    if v >= 10 {
        lemma_decimal_digits(v / 10);
        assert forall|k: int| 0 <= k < decimal(v).len() implies 48 <= #[trigger] decimal(v)[k] <= 57 by {
            if k < decimal(v / 10).len() {
                assert(decimal(v)[k] == decimal(v / 10)[k]);
            }
        }
    }
}

/// The number that a run of decimal digit codes spells.
spec fn digits_value(s: Seq<i64>) -> int
    decreases s.len(),
{
    if s.len() == 0 {
        0
    } else {
        digits_value(s.drop_last()) * 10 + (s.last() - 48)
    }
}

/// `decimal(v)` spells `v`.
proof fn lemma_decimal_value(v: nat)
    ensures
        digits_value(decimal(v)) == v,
    decreases v,
{
    if v >= 10 {
        lemma_decimal_value(v / 10);
        assert(decimal(v).drop_last() =~= decimal(v / 10));
        assert(0 <= v % 10 < 10);
        assert(decimal(v).last() == 48 + v % 10);
        vstd::arithmetic::div_mod::lemma_fundamental_div_mod(v as int, 10);
        assert((v / 10) * 10 + v % 10 == v) by (nonlinear_arith)
            requires v == 10 * (v / 10) + v % 10;
        let d = decimal(v);
        assert(digits_value(d) == digits_value(d.drop_last()) * 10 + (d.last() - 48));
        assert(digits_value(d.drop_last()) == v / 10);
    } else {
        let d = decimal(v);
        assert(d.drop_last() =~= Seq::<i64>::empty());
        assert(digits_value(d.drop_last()) == 0);
        assert(d.last() == 48 + v);
    }
}

/// Two texts that end in a separator (`_`) followed by a separator-free tail
/// agree on the tail and on what comes before the separator.
proof fn lemma_split_at_last_separator(x: Seq<i64>, d1: Seq<i64>, y: Seq<i64>, d2: Seq<i64>)
    requires
        x + seq![95i64] + d1 == y + seq![95i64] + d2,
        forall|k: int| 0 <= k < d1.len() ==> #[trigger] d1[k] != 95,
        forall|k: int| 0 <= k < d2.len() ==> #[trigger] d2[k] != 95,
    ensures
        x == y,
        d1 == d2,
{
    let s = x + seq![95i64] + d1;
    let t = y + seq![95i64] + d2;
    assert(s.len() == x.len() + 1 + d1.len());
    assert(t.len() == y.len() + 1 + d2.len());
    if d1.len() < d2.len() {
        let idx = x.len() as int;
        assert(s[idx] == 95);
        assert(t[idx] == d2[idx - y.len() - 1]);
    } else if d2.len() < d1.len() {
        let idx = y.len() as int;
        assert(t[idx] == 95);
        assert(s[idx] == d1[idx - x.len() - 1]);
    }
    assert(x =~= s.subrange(0, x.len() as int));
    assert(y =~= t.subrange(0, y.len() as int));
    assert(d1 =~= s.subrange(x.len() as int + 1, s.len() as int));
    assert(d2 =~= t.subrange(y.len() as int + 1, t.len() as int));
}

/// The key of a path of more than one node has a separator where its last
/// node's digits begin; a path of one node has none.
proof fn lemma_path_key_shape(p: Seq<usize>)
    ensures
        p.len() == 0 <==> path_key(p).len() == 0,
        p.len() == 1 ==> forall|k: int| 0 <= k < path_key(p).len() ==> #[trigger] path_key(p)[k] != 95,
        p.len() > 1 ==> path_key(p) == path_key(p.drop_last()) + seq![95i64] + decimal(p.last() as nat),
{
    if p.len() == 1 {
        lemma_decimal_digits(p[0] as nat);
    } else if p.len() > 1 {
        lemma_decimal_digits(p.last() as nat);
    }
}

/// Path keys name paths: two paths with the same key are the same path, so
/// the ranking of `get_paths` counts each distinct path once.
pub proof fn lemma_path_key_injective(p: Seq<usize>, q: Seq<usize>)
    requires
        path_key(p) == path_key(q),
    ensures
        p == q,
    decreases p.len(),
{
    lemma_path_key_shape(p);
    lemma_path_key_shape(q);
    if p.len() == 0 {
        assert(p =~= q);
    } else if p.len() == 1 {
        if q.len() > 1 {
            let y = path_key(q.drop_last());
            assert(path_key(q)[y.len() as int] == 95);
        } else {
            lemma_decimal_value(p[0] as nat);
            lemma_decimal_value(q[0] as nat);
            assert(p =~= q);
        }
    } else {
        if q.len() == 1 {
            let x = path_key(p.drop_last());
            assert(path_key(p)[x.len() as int] == 95);
        } else {
            lemma_decimal_digits(p.last() as nat);
            lemma_decimal_digits(q.last() as nat);
            lemma_split_at_last_separator(path_key(p.drop_last()), decimal(p.last() as nat),
                path_key(q.drop_last()), decimal(q.last() as nat));
            lemma_path_key_injective(p.drop_last(), q.drop_last());
            lemma_decimal_value(p.last() as nat);
            lemma_decimal_value(q.last() as nat);
            assert(p =~= p.drop_last().push(p.last()));
            assert(q =~= q.drop_last().push(q.last()));
        }
    }
}

/// The keys of a list of paths.
pub open spec fn path_keys(ps: Seq<Seq<usize>>) -> Seq<Seq<i64>> {
    ps.map_values(|p: Seq<usize>| path_key(p))
}

/// The indices `j` (ascending) with `keys[j] == key`.
pub open spec fn key_group(keys: Seq<Seq<i64>>, key: Seq<i64>, g: Seq<usize>) -> bool {
    &&& crate::direct_lingam::strictly_increasing(g)
    &&& forall|a: int| 0 <= a < g.len() ==> #[trigger] g[a] < keys.len() && keys[g[a] as int] == key
    &&& forall|j: usize| j < keys.len() && keys[j as int] == key ==> #[trigger] g.contains(j)
}

/// `get_paths` before the medians: the distinct path keys ranked by how many
/// of the listed paths carry them (ties in lexicographic order of the keys),
/// each with the ascending indices of the paths that carry it.
pub fn rank_paths(paths: &Vec<Vec<usize>>) -> (res: (Vec<Vec<i64>>, Vec<i64>, Vec<Vec<usize>>))
    requires
        paths@.len() < i64::MAX,
    ensures
        is_ranked_count(path_keys(paths_view(paths@)), None, rows_view(res.0@), res.1@),
        res.2@.len() == res.0@.len(),
        forall|k: int| 0 <= k < res.2@.len() ==>
            key_group(path_keys(paths_view(paths@)), #[trigger] rows_view(res.0@)[k], res.2@[k]@),
{
    let ghost keys = path_keys(paths_view(paths@));
    let mut all: Vec<Vec<i64>> = Vec::new();
    let mut j: usize = 0;
    while j < paths.len()
        invariant
            j <= paths@.len(),
            keys == path_keys(paths_view(paths@)),
            all@.len() == j,
            rows_view(all@) == keys.take(j as int),
        decreases paths@.len() - j,
    {
        let k = path_key_of(&paths[j]);
        assert(keys[j as int] == k@);
        let ghost prev = all@;
        all.push(k);
        assert(rows_view(all@) =~= keys.take(j + 1)) by {
            assert forall|q: int| 0 <= q < j + 1 implies #[trigger] rows_view(all@)[q] == keys.take(j + 1)[q] by {
                if q < j {
                    assert(all@[q] == prev[q]);
                    assert(rows_view(prev)[q] == prev[q]@);
                }
            }
        }
        j = j + 1;
    }
    assert(keys.take(paths@.len() as int) =~= keys);
    let mut copies: Vec<Vec<i64>> = Vec::new();
    let mut c: usize = 0;
    while c < all.len()
        invariant
            c <= all@.len(),
            copies@.len() == c,
            forall|q: int| 0 <= q < c ==> #[trigger] copies@[q]@ == all@[q]@,
        decreases all@.len() - c,
    {
        copies.push(crate::direct_lingam::copy_row(&all[c]));
        c = c + 1;
    }
    assert(rows_view(copies@) =~= rows_view(all@));
    let (ranked, counts) = ranked_counts(copies, None);
    let mut groups: Vec<Vec<usize>> = Vec::new();
    let mut g: usize = 0;
    while g < ranked.len()
        invariant
            g <= ranked@.len(),
            rows_view(all@) == keys,
            groups@.len() == g,
            forall|q: int| 0 <= q < g ==> key_group(keys, #[trigger] rows_view(ranked@)[q], groups@[q]@),
        decreases ranked@.len() - g,
    {
        let mut members: Vec<usize> = Vec::new();
        let mut t: usize = 0;
        let ghost key = rows_view(ranked@)[g as int];
        assert(key == ranked@[g as int]@);
        while t < all.len()
            invariant
                t <= all@.len(),
                g < ranked@.len(),
                rows_view(all@) == keys,
                key == ranked@[g as int]@,
                crate::direct_lingam::strictly_increasing(members@),
                forall|a: int| 0 <= a < members@.len() ==> #[trigger] members@[a] < t && keys[members@[a] as int] == key,
                forall|x: usize| x < t && keys[x as int] == key ==> #[trigger] members@.contains(x),
            decreases all@.len() - t,
        {
            assert(keys[t as int] == all@[t as int]@);
            if crate::util::rows_equal(&all[t], &ranked[g]) {
                let ghost prev = members@;
                members.push(t);
                proof {
                    assert forall|x: usize| x < t + 1 && keys[x as int] == key implies #[trigger] members@.contains(x) by {
                        if x == t {
                            assert(members@[prev.len() as int] == x);
                        } else {
                            assert(prev.contains(x));
                            let a = choose|a: int| 0 <= a < prev.len() && prev[a] == x;
                            assert(members@[a] == x);
                        }
                    }
                }
            }
            t = t + 1;
        }
        groups.push(members);
        g = g + 1;
    }
    (ranked, counts, groups)
}

/// The first `q` row-major positions of a DAG key, decoded: every decoded
/// edge has a nonzero mark in `m` at a position below `q`, and every nonzero
/// mark below `q` is decoded.
proof fn lemma_key_edges_prefix(m: Seq<Seq<i64>>, p: nat, split: bool, q: nat)
    requires
        crate::direct_lingam::is_square(m, p),
        q <= p * p,
        p * p <= usize::MAX,
    ensures
        forall|k: int| 0 <= k < key_edges(dag_key(m, p, split), p, q).len() ==> {
            let e = #[trigger] key_edges(dag_key(m, p, split), p, q)[k];
            &&& e.0 < p && e.1 < p
            &&& e.0 * p + e.1 < q
            &&& m[e.0 as int][e.1 as int] != 0
            &&& e.2 == (if split { m[e.0 as int][e.1 as int] } else { 1i64 })
        },
        forall|i: int, j: int| 0 <= i < p && 0 <= j < p && i * p + j < q && #[trigger] m[i][j] != 0
            ==> key_edges(dag_key(m, p, split), p, q).contains(
                (i as usize, j as usize, if split { m[i][j] } else { 1i64 }),
            ),
    decreases q,
{
    let key = dag_key(m, p, split);
    if q > 0 {
        let r = q - 1;
        lemma_key_edges_prefix(m, p, split, r as nat);
        let prev = key_edges(key, p, r as nat);
        let cur = key_edges(key, p, q);
        assert(p > 0) by (nonlinear_arith)
            requires q <= p * p, q > 0;
        let i0 = r / p as int;
        let j0 = r % p as int;
        assert(r == i0 * p + j0 && 0 <= j0 < p) by (nonlinear_arith)
            requires p > 0, i0 == r / p as int, j0 == r % p as int, r >= 0;
        assert(i0 < p) by (nonlinear_arith)
            requires r == i0 * p + j0, 0 <= j0, r < p * p, p > 0;
        assert(0 <= i0);
        assert(p <= p * p) by (nonlinear_arith)
            requires p > 0;
        assert(key.len() == p * p);
        assert(key[r] == (if split { m[i0][j0] } else if m[i0][j0] != 0 { 1i64 } else { 0i64 }));
        let tail = if key[r] != 0 {
            seq![(i0 as usize, j0 as usize, key[r])]
        } else {
            Seq::<(usize, usize, i64)>::empty()
        };
        assert(cur == prev + tail);
        assert forall|k: int| 0 <= k < cur.len() implies {
            let e = #[trigger] cur[k];
            &&& e.0 < p && e.1 < p
            &&& e.0 * p + e.1 < q
            &&& m[e.0 as int][e.1 as int] != 0
            &&& e.2 == (if split { m[e.0 as int][e.1 as int] } else { 1i64 })
        } by {
            if k < prev.len() {
                assert(cur[k] == prev[k]);
            } else {
                assert(cur[k] == tail[k - prev.len()]);
            }
        }
        assert forall|i: int, j: int| 0 <= i < p && 0 <= j < p && i * p + j < q && #[trigger] m[i][j] != 0
            implies cur.contains((i as usize, j as usize, if split { m[i][j] } else { 1i64 })) by {
            let x = (i as usize, j as usize, if split { m[i][j] } else { 1i64 });
            if i * p + j < r {
                assert(prev.contains(x));
                let k = choose|k: int| 0 <= k < prev.len() && prev[k] == x;
                assert(cur[k] == x);
            } else {
                lemma_row_major(i, j, p as int);
                assert(i == i0 && j == j0);
                assert(cur[prev.len() as int] == x);
            }
        }
    }
}

/// Decoding the DAG key of a resample (`dag_edges` on a key that `dag_counts`
/// ranks) gives back exactly that resample's edges: each decoded
/// `(to, from, mark)` is a nonzero entry of the resample, carrying its sign
/// when `split` and `1` otherwise, and every nonzero entry is decoded.
pub proof fn lemma_dag_key_decodes_to_edges(m: Seq<Seq<i64>>, p: nat, split: bool)
    requires
        crate::direct_lingam::is_square(m, p),
        p * p <= usize::MAX,
    ensures
        forall|k: int| 0 <= k < key_edges(dag_key(m, p, split), p, p * p).len() ==> {
            let e = #[trigger] key_edges(dag_key(m, p, split), p, p * p)[k];
            &&& e.0 < p && e.1 < p
            &&& m[e.0 as int][e.1 as int] != 0
            &&& e.2 == (if split { m[e.0 as int][e.1 as int] } else { 1i64 })
        },
        forall|i: int, j: int| 0 <= i < p && 0 <= j < p && #[trigger] m[i][j] != 0
            ==> key_edges(dag_key(m, p, split), p, p * p).contains(
                (i as usize, j as usize, if split { m[i][j] } else { 1i64 }),
            ),
{
    lemma_key_edges_prefix(m, p, split, p * p);
    assert forall|i: int, j: int| 0 <= i < p && 0 <= j < p && #[trigger] m[i][j] != 0
        implies key_edges(dag_key(m, p, split), p, p * p).contains(
            (i as usize, j as usize, if split { m[i][j] } else { 1i64 }),
        ) by {
        assert(i * p + j < p * p) by (nonlinear_arith)
            requires 0 <= i < p, 0 <= j < p;
    }
}

} // verus!
