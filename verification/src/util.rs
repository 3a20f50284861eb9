//! Integer helpers: the bootstrap random-number generator, a stable descending
//! argsort and the lexicographic unique-rows count.

use vstd::prelude::*;

verus! {

/// `x * y` reduced modulo 2^64, as `u64::wrapping_mul` computes it.
pub open spec fn wmul(x: u64, y: u64) -> u64 {
    ((x as nat * y as nat) % 0x1_0000_0000_0000_0000) as u64
}

/// `x + y` reduced modulo 2^64, as `u64::wrapping_add` computes it.
pub open spec fn wadd(x: u64, y: u64) -> u64 {
    if x + y > u64::MAX {
        (x + y - 0x1_0000_0000_0000_0000) as u64
    } else {
        (x + y) as u64
    }
}

/// Left rotation of a 64-bit word by `k` bits, `0 < k < 64`.
pub open spec fn rotl(x: u64, k: u64) -> u64 {
    (x << k) | (x >> (64 - k) as u64)
}

/// The splitmix64 increment.
pub open spec fn golden_gamma() -> u64 {
    0x9E37_79B9_7F4A_7C15
}

/// The splitmix64 counter after `k` increments from `seed`.
pub open spec fn splitmix_counter(seed: u64, k: nat) -> u64
    decreases k,
{
    if k == 0 {
        seed
    } else {
        wadd(splitmix_counter(seed, (k - 1) as nat), golden_gamma())
    }
}

/// The splitmix64 output function applied to a counter value.
#[verifier::opaque]
pub open spec fn splitmix_mix(z: u64) -> u64 {
    let x1 = wmul(z ^ (z >> 30u64), 0xBF58_476D_1CE4_E5B9);
    let x2 = wmul(x1 ^ (x1 >> 27u64), 0x94D0_49BB_1331_11EB);
    x2 ^ (x2 >> 31u64)
}

/// The `k`-th splitmix64 output (`k >= 1`) for `seed`.
pub open spec fn splitmix_output(seed: u64, k: nat) -> u64 {
    splitmix_mix(splitmix_counter(seed, k))
}

/// The xoshiro256** state that `seed` expands to.
pub open spec fn seeded_state(seed: u64) -> (u64, u64, u64, u64) {
    (
        splitmix_output(seed, 1),
        splitmix_output(seed, 2),
        splitmix_output(seed, 3),
        splitmix_output(seed, 4),
    )
}

/// The xoshiro256** output for state `s`.
pub open spec fn xoshiro_output(s: (u64, u64, u64, u64)) -> u64 {
    wmul(rotl(wmul(s.1, 5), 7), 9)
}

/// The xoshiro256** state that follows `s`.
pub open spec fn xoshiro_next(s: (u64, u64, u64, u64)) -> (u64, u64, u64, u64) {
    let t = s.1 << 17u64;
    let s2 = s.2 ^ s.0;
    let s3 = s.3 ^ s.1;
    let s1 = s.1 ^ s2;
    let s0 = s.0 ^ s3;
    let s2b = s2 ^ t;
    let s3b = rotl(s3, 45);
    (s0, s1, s2b, s3b)
}

/// The state after `k` draws from `s`.
pub open spec fn xoshiro_advance(s: (u64, u64, u64, u64), k: nat) -> (u64, u64, u64, u64)
    decreases k,
{
    if k == 0 {
        s
    } else {
        xoshiro_next(xoshiro_advance(s, (k - 1) as nat))
    }
}

/// splitmix64-seeded xoshiro256** generator used to draw bootstrap resamples.
pub struct Rng {
    s0: u64,
    s1: u64,
    s2: u64,
    s3: u64,
}

impl View for Rng {
    type V = (u64, u64, u64, u64);

    closed spec fn view(&self) -> (u64, u64, u64, u64) {
        (self.s0, self.s1, self.s2, self.s3)
    }
}

fn splitmix_step(z: u64) -> (out: (u64, u64))
    ensures
        out.0 == wadd(z, golden_gamma()),
        out.1 == splitmix_mix(out.0),
{
    let z2 = z.wrapping_add(0x9E37_79B9_7F4A_7C15);
    let mut x = z2;
    x = (x ^ (x >> 30u64)).wrapping_mul(0xBF58_476D_1CE4_E5B9);
    x = (x ^ (x >> 27u64)).wrapping_mul(0x94D0_49BB_1331_11EB);
    proof {
        reveal(splitmix_mix);
    }
    (z2, x ^ (x >> 31u64))
}

fn rotate_left(x: u64, k: u64) -> (r: u64)
    requires
        0 < k < 64,
    ensures
        r == rotl(x, k),
{
    (x << k) | (x >> (64 - k))
}

impl Rng {
    /// Draw `n` row indices in `0..n` with replacement: the `t`-th index is
    /// the `t`-th draw reduced modulo `n`.
    pub fn resample_indices(&mut self, n: usize) -> (idx: Vec<usize>)
        ensures
            idx@.len() == n,
            forall|t: int| 0 <= t < n ==> #[trigger] idx@[t] < n
                && idx@[t] as int == xoshiro_output(xoshiro_advance(old(self)@, t as nat)) as int % n as int,
            final(self)@ == xoshiro_advance(old(self)@, n as nat),
    {
        let ghost start = self@;
        let mut idx: Vec<usize> = Vec::new();
        let mut t: usize = 0;
        while t < n
            invariant
                t <= n,
                idx@.len() == t,
                self@ == xoshiro_advance(start, t as nat),
                forall|q: int| 0 <= q < t ==> #[trigger] idx@[q] < n
                    && idx@[q] as int == xoshiro_output(xoshiro_advance(start, q as nat)) as int % n as int,
            decreases n - t,
        {
            let k = self.gen_index(n);
            idx.push(k);
            t = t + 1;
        }
        idx
    }

    /// Expand `seed` into a generator state with four splitmix64 outputs.
    pub fn seed_from_u64(seed: u64) -> (r: Self)
        ensures
            r@ == seeded_state(seed),
    {
        let (z1, a) = splitmix_step(seed);
        let (z2, b) = splitmix_step(z1);
        let (z3, c) = splitmix_step(z2);
        let (_z4, d) = splitmix_step(z3);
        assert(splitmix_counter(seed, 0) == seed);
        assert(splitmix_counter(seed, 1) == z1);
        assert(splitmix_counter(seed, 2) == z2);
        assert(splitmix_counter(seed, 3) == z3);
        Rng { s0: a, s1: b, s2: c, s3: d }
    }

    /// One xoshiro256** draw.
    pub fn next_u64(&mut self) -> (r: u64)
        ensures
            r == xoshiro_output(old(self)@),
            final(self)@ == xoshiro_next(old(self)@),
    {
        let result = rotate_left(self.s1.wrapping_mul(5), 7).wrapping_mul(9);
        let t = self.s1 << 17u64;
        self.s2 = self.s2 ^ self.s0;
        self.s3 = self.s3 ^ self.s1;
        self.s1 = self.s1 ^ self.s2;
        self.s0 = self.s0 ^ self.s3;
        self.s2 = self.s2 ^ t;
        self.s3 = rotate_left(self.s3, 45);
        result
    }

    /// An index in `0..n`: the next draw reduced modulo `n`.
    pub fn gen_index(&mut self, n: usize) -> (r: usize)
        requires
            n > 0,
        ensures
            r as int == xoshiro_output(old(self)@) as int % n as int,
            r < n,
            final(self)@ == xoshiro_next(old(self)@),
    {
        let x = self.next_u64();
        (x % (n as u64)) as usize
    }
}


/// Advancing by `a` draws and then by `b` draws is advancing by `a + b`.
pub proof fn lemma_advance_adds(s: (u64, u64, u64, u64), a: nat, b: nat)
    ensures
        xoshiro_advance(xoshiro_advance(s, a), b) == xoshiro_advance(s, a + b),
    decreases b,
{
    if b > 0 {
        lemma_advance_adds(s, a, (b - 1) as nat);
        assert((a + b - 1) as nat == a + (b - 1) as nat);
    }
}

/// `r` holds `count` resamples of `n` row indices drawn from one stream
/// seeded with `seed`: index `i` of resample `k` is draw `k * n + i`
/// reduced modulo `n`.
pub open spec fn is_resample_stream(seed: u64, n: nat, count: nat, r: Seq<Seq<usize>>) -> bool {
    &&& r.len() == count
    &&& forall|k: int| 0 <= k < count ==> #[trigger] r[k].len() == n
    &&& forall|k: int, i: int| 0 <= k < count && 0 <= i < n ==> #[trigger] r[k][i] < n
        && r[k][i] as int == xoshiro_output(xoshiro_advance(seeded_state(seed), (k * n + i) as nat)) as int
            % n as int
}

/// Two bootstraps with the same seed, row count and number of resamples draw
/// the same resamples.
pub proof fn lemma_same_seed_same_resamples(seed: u64, n: nat, count: nat, r1: Seq<Seq<usize>>, r2: Seq<Seq<usize>>)
    requires
        is_resample_stream(seed, n, count, r1),
        is_resample_stream(seed, n, count, r2),
    ensures
        r1 == r2,
{
    assert forall|k: int| 0 <= k < count implies #[trigger] r1[k] == r2[k] by {
        assert forall|i: int| 0 <= i < n implies #[trigger] r1[k][i] == r2[k][i] by {
            assert(r1[k][i] as int == r2[k][i] as int);
        }
        assert(r1[k] =~= r2[k]);
    }
    assert(r1 =~= r2);
}

/// The row indices of `count` bootstrap resamples of `n` rows, all drawn
/// from one generator seeded with `seed`: resample `k` continues the stream
/// where resample `k - 1` stopped, so its `i`-th index is draw `k * n + i`
/// reduced modulo `n`. Being a function of `(seed, n, count)` alone, two
/// bootstraps with the same seed draw the same resamples.
pub fn resample_stream(seed: u64, n: usize, count: usize) -> (r: Vec<Vec<usize>>)
    ensures
        is_resample_stream(seed, n as nat, count as nat, r@.map_values(|v: Vec<usize>| v@)),
{
    let mut rng = Rng::seed_from_u64(seed);
    let ghost start = seeded_state(seed);
    let mut r: Vec<Vec<usize>> = Vec::new();
    let mut k: usize = 0;
    while k < count
        invariant
            k <= count,
            r@.len() == k,
            rng@ == xoshiro_advance(start, (k * n) as nat),
            start == seeded_state(seed),
            forall|q: int| 0 <= q < k ==> #[trigger] r@[q]@.len() == n,
            forall|q: int, i: int| 0 <= q < k && 0 <= i < n ==> #[trigger] r@[q]@[i] < n
                && r@[q]@[i] as int == xoshiro_output(xoshiro_advance(start, (q * n + i) as nat)) as int
                    % n as int,
        decreases count - k,
    {
        let ghost before = rng@;
        let idx = rng.resample_indices(n);
        proof {
            assert(k * n + n == (k + 1) * n) by (nonlinear_arith);
            assert(k * n >= 0) by (nonlinear_arith);
            lemma_advance_adds(start, (k * n) as nat, n as nat);
            assert forall|i: int| 0 <= i < n implies #[trigger] idx@[i] as int
                == xoshiro_output(xoshiro_advance(start, (k * n + i) as nat)) as int % n as int by {
                lemma_advance_adds(start, (k * n) as nat, i as nat);
            }
        }
        let ghost prev = r@;
        r.push(idx);
        proof {
            assert forall|q: int, i: int| 0 <= q < k + 1 && 0 <= i < n implies #[trigger] r@[q]@[i] < n
                && r@[q]@[i] as int == xoshiro_output(xoshiro_advance(start, (q * n + i) as nat)) as int
                    % n as int by {
                if q < k {
                    assert(r@[q] == prev[q]);
                }
            }
        }
        k = k + 1;
    }
    proof {
        let rv = r@.map_values(|v: Vec<usize>| v@);
        assert forall|q: int| 0 <= q < count implies #[trigger] rv[q] == r@[q]@ by {}
    }
    r
}

/// `keys[x]` ranks strictly before `keys[y]` in a stable descending order:
/// a larger key first, and among equal keys the smaller index first.
pub open spec fn ranks_before(keys: Seq<i64>, x: int, y: int) -> bool {
    keys[x] > keys[y] || (keys[x] == keys[y] && x < y)
}

/// `order` lists every index of `keys` exactly once, in stable descending order
/// of the keys.
pub open spec fn is_stable_desc_argsort(keys: Seq<i64>, order: Seq<usize>) -> bool {
    &&& order.len() == keys.len()
    &&& forall|a: int| 0 <= a < order.len() ==> #[trigger] order[a] < keys.len()
    &&& forall|a: int, b: int|
        0 <= a < b < order.len() ==> ranks_before(keys, #[trigger] order[a] as int, #[trigger] order[b] as int)
    &&& forall|j: usize| j < keys.len() ==> #[trigger] order.contains(j)
}

/// Indices that would sort `keys` in descending order, stable on ties.
pub fn argsort_desc(keys: &[i64]) -> (order: Vec<usize>)
    ensures
        is_stable_desc_argsort(keys@, order@),
{
    let n = keys.len();
    let mut idx: Vec<usize> = Vec::new();
    let mut i: usize = 0;
    while i < n
        invariant
            i <= n,
            n == keys@.len(),
            idx@.len() == i,
            forall|a: int| 0 <= a < idx@.len() ==> #[trigger] idx@[a] < i,
            forall|a: int, b: int|
                0 <= a < b < idx@.len() ==> ranks_before(keys@, #[trigger] idx@[a] as int, #[trigger] idx@[b] as int),
            forall|j: usize| j < i ==> #[trigger] idx@.contains(j),
        decreases n - i,
    {
        let ki = keys[i];
        let mut pos: usize = 0;
        while pos < idx.len() && keys[idx[pos]] >= ki
            invariant
                pos <= idx@.len(),
                idx@.len() == i,
                i < n,
                n == keys@.len(),
                ki == keys@[i as int],
                forall|a: int| 0 <= a < idx@.len() ==> #[trigger] idx@[a] < i,
                forall|a: int| 0 <= a < pos ==> keys@[#[trigger] idx@[a] as int] >= ki,
            decreases idx@.len() - pos,
        {
            pos = pos + 1;
        }
        let ghost old_idx = idx@;
        proof {
            assert forall|b: int| pos <= b < old_idx.len() implies keys@[#[trigger] old_idx[b] as int] < ki by {
                if b > pos {
                    assert(ranks_before(keys@, old_idx[pos as int] as int, old_idx[b] as int));
                }
            }
        }
        idx.insert(pos, i);
        proof {
            assert forall|a: int, b: int|
                0 <= a < b < idx@.len() implies ranks_before(keys@, #[trigger] idx@[a] as int, #[trigger] idx@[b] as int) by {
                if a < pos && b < pos {
                    assert(idx@[a] == old_idx[a] && idx@[b] == old_idx[b]);
                } else if a < pos && b == pos {
                    assert(idx@[a] == old_idx[a]);
                } else if a < pos {
                    assert(idx@[a] == old_idx[a] && idx@[b] == old_idx[b - 1]);
                } else if a == pos {
                    assert(idx@[b] == old_idx[b - 1]);
                } else {
                    assert(idx@[a] == old_idx[a - 1] && idx@[b] == old_idx[b - 1]);
                }
            }
            assert forall|j: usize| j < i + 1 implies #[trigger] idx@.contains(j) by {
                if j == i {
                    assert(idx@[pos as int] == j);
                } else {
                    assert(old_idx.contains(j));
                    let a = choose|a: int| 0 <= a < old_idx.len() && old_idx[a] == j;
                    if a < pos {
                        assert(idx@[a] == j);
                    } else {
                        assert(idx@[a + 1] == j);
                    }
                }
            }
            assert forall|a: int| 0 <= a < idx@.len() implies #[trigger] idx@[a] < i + 1 by {
                if a < pos {
                    assert(idx@[a] == old_idx[a]);
                } else if a > pos {
                    assert(idx@[a] == old_idx[a - 1]);
                }
            }
        }
        i = i + 1;
    }
    idx
}


/// Lexicographic order on integer rows, as `Vec<i64>` orders them: the first
/// differing entry decides, and a proper prefix comes first.
pub open spec fn lex_lt(a: Seq<i64>, b: Seq<i64>) -> bool
    decreases a.len(),
{
    if a.len() == 0 {
        b.len() > 0
    } else if b.len() == 0 {
        false
    } else if a[0] < b[0] {
        true
    } else if a[0] > b[0] {
        false
    } else {
        lex_lt(a.drop_first(), b.drop_first())
    }
}

/// No row is lexicographically before itself.
pub proof fn lemma_lex_irreflexive(a: Seq<i64>)
    ensures
        !lex_lt(a, a),
    decreases a.len(),
{
    if a.len() > 0 {
        lemma_lex_irreflexive(a.drop_first());
    }
}

/// The lexicographic order is transitive.
pub proof fn lemma_lex_transitive(a: Seq<i64>, b: Seq<i64>, c: Seq<i64>)
    requires
        lex_lt(a, b),
        lex_lt(b, c),
    ensures
        lex_lt(a, c),
    decreases a.len(),
{
    if a.len() > 0 && b.len() > 0 && c.len() > 0 && a[0] == b[0] && b[0] == c[0] {
        lemma_lex_transitive(a.drop_first(), b.drop_first(), c.drop_first());
    }
}

/// Two different rows are ordered one way or the other.
pub proof fn lemma_lex_total(a: Seq<i64>, b: Seq<i64>)
    requires
        a != b,
    ensures
        lex_lt(a, b) || lex_lt(b, a),
    decreases a.len(),
{
    if a.len() > 0 && b.len() > 0 && a[0] == b[0] {
        if a.drop_first() == b.drop_first() {
            assert(a =~= seq![a[0]] + a.drop_first());
            assert(b =~= seq![b[0]] + b.drop_first());
        }
        lemma_lex_total(a.drop_first(), b.drop_first());
    } else if a.len() == 0 && b.len() == 0 {
        assert(a =~= b);
    }
}

/// `lex_lt(a, b)`, decided entry by entry.
pub fn lex_less(a: &Vec<i64>, b: &Vec<i64>) -> (r: bool)
    ensures
        r == lex_lt(a@, b@),
{
    let mut i: usize = 0;
    assert(a@.skip(0) =~= a@);
    assert(b@.skip(0) =~= b@);
    while i < a.len() && i < b.len() && a[i] == b[i]
        invariant
            i <= a@.len(),
            i <= b@.len(),
            lex_lt(a@, b@) == lex_lt(a@.skip(i as int), b@.skip(i as int)),
        decreases a@.len() - i,
    {
        assert(a@.skip(i as int).drop_first() =~= a@.skip(i + 1));
        assert(b@.skip(i as int).drop_first() =~= b@.skip(i + 1));
        i = i + 1;
    }
    if i < a.len() && i < b.len() {
        a[i] < b[i]
    } else {
        i < b.len()
    }
}

/// Entry-wise equality of two rows.
pub fn rows_equal(a: &Vec<i64>, b: &Vec<i64>) -> (r: bool)
    ensures
        r == (a@ == b@),
{
    if a.len() != b.len() {
        return false;
    }
    let mut i: usize = 0;
    while i < a.len()
        invariant
            i <= a@.len(),
            a@.len() == b@.len(),
            forall|k: int| 0 <= k < i ==> a@[k] == b@[k],
        decreases a@.len() - i,
    {
        if a[i] != b[i] {
            return false;
        }
        i = i + 1;
    }
    assert(a@ =~= b@);
    true
}

/// Number of occurrences of `x` in `s`.
pub open spec fn occurrences(s: Seq<Seq<i64>>, x: Seq<i64>) -> nat
    decreases s.len(),
{
    if s.len() == 0 {
        0
    } else {
        (if s[0] == x { 1nat } else { 0nat }) + occurrences(s.drop_first(), x)
    }
}

/// The rows of a matrix, each taken by its view.
pub open spec fn rows_view(rows: Seq<Vec<i64>>) -> Seq<Seq<i64>> {
    rows.map_values(|r: Vec<i64>| r@)
}

/// `uniq` holds the distinct rows of `rows` in strictly increasing lexicographic
/// order, and `counts[k]` is how often `uniq[k]` occurs in `rows`.
pub open spec fn is_unique_count(rows: Seq<Seq<i64>>, uniq: Seq<Seq<i64>>, counts: Seq<i64>) -> bool {
    &&& counts.len() == uniq.len()
    &&& forall|a: int, b: int| 0 <= a < b < uniq.len() ==> lex_lt(#[trigger] uniq[a], #[trigger] uniq[b])
    &&& forall|a: int| 0 <= a < uniq.len() ==> #[trigger] counts[a] == occurrences(rows, uniq[a]) as int
    &&& forall|a: int| 0 <= a < uniq.len() ==> #[trigger] counts[a] >= 1
    &&& forall|j: int| 0 <= j < rows.len() ==> #[trigger] uniq.contains(rows[j])
}

/// Lexicographically sorted unique rows and the number of times each occurs.
pub fn unique_rows(rows: Vec<Vec<i64>>) -> (res: (Vec<Vec<i64>>, Vec<i64>))
    requires
        rows@.len() < i64::MAX,
    ensures
        is_unique_count(rows_view(rows@), rows_view(res.0@), res.1@),
{
    let ghost all = rows_view(rows@);
    let n = rows.len();
    let mut rest = rows;
    let mut uniq: Vec<Vec<i64>> = Vec::new();
    let mut counts: Vec<i64> = Vec::new();
    while rest.len() > 0
        invariant
            n == all.len(),
            n < i64::MAX,
            rest@.len() <= n,
            rows_view(rest@) == all.take(rest@.len() as int),
            is_unique_count(all.skip(rest@.len() as int), rows_view(uniq@), counts@),
            forall|a: int| 0 <= a < counts@.len() ==> #[trigger] counts@[a] <= n - rest@.len(),
        decreases rest@.len(),
    {
        let ghost k = rest@.len() as int;
        let ghost done = all.skip(k);
        let ghost old_uniq = rows_view(uniq@);
        let ghost old_counts = counts@;
        let ghost old_rest = rest@;
        let r = rest.pop().unwrap();
        assert(rows_view(old_rest)[k - 1] == old_rest[k - 1]@);
        assert(all.take(k)[k - 1] == all[k - 1]);
        assert(all.take(k - 1) =~= rows_view(rest@));
        assert(r@ == all[k - 1]);
        let ghost now = all.skip(k - 1);
        assert(now.drop_first() =~= done);
        assert(now[0] == r@);
        let mut pos: usize = 0;
        while pos < uniq.len() && lex_less(&uniq[pos], &r)
            invariant
                pos <= uniq@.len(),
                rows_view(uniq@) == old_uniq,
                forall|a: int| 0 <= a < pos ==> lex_lt(#[trigger] old_uniq[a], r@),
            decreases uniq@.len() - pos,
        {
            pos = pos + 1;
        }
        proof {
            assert forall|b: int| pos < b < old_uniq.len() implies lex_lt(r@, #[trigger] old_uniq[b]) by {
                if !lex_lt(r@, old_uniq[pos as int]) {
                    if r@ != old_uniq[pos as int] {
                        lemma_lex_total(r@, old_uniq[pos as int]);
                    }
                }
                if r@ == old_uniq[pos as int] {
                    assert(lex_lt(old_uniq[pos as int], old_uniq[b]));
                } else {
                    if !lex_lt(r@, old_uniq[pos as int]) {
                        assert(false);
                    }
                    lemma_lex_transitive(r@, old_uniq[pos as int], old_uniq[b]);
                }
            }
        }
        if pos < uniq.len() && rows_equal(&uniq[pos], &r) {
            let c = counts[pos];
            counts.set(pos, c + 1);
            proof {
                assert forall|a: int| 0 <= a < uniq@.len() implies #[trigger] counts@[a] == occurrences(now, rows_view(uniq@)[a]) as int by {
                    assert(rows_view(uniq@)[a] == old_uniq[a]);
                    if a != pos {
                        if old_uniq[a] == r@ {
                            if a < pos {
                                lemma_lex_irreflexive(r@);
                            } else {
                                assert(lex_lt(old_uniq[pos as int], old_uniq[a]));
                                lemma_lex_irreflexive(r@);
                            }
                        }
                    }
                }
                assert forall|j: int| 0 <= j < now.len() implies #[trigger] rows_view(uniq@).contains(now[j]) by {
                    if j == 0 {
                        assert(rows_view(uniq@)[pos as int] == now[0]);
                    } else {
                        assert(now[j] == done[j - 1]);
                        assert(old_uniq.contains(done[j - 1]));
                    }
                }
                assert(rows_view(uniq@) == old_uniq);
            }
        } else {
            proof {
                if pos < old_uniq.len() {
                    if !lex_lt(r@, old_uniq[pos as int]) {
                        lemma_lex_total(r@, old_uniq[pos as int]);
                    }
                }
                assert(forall|a: int| 0 <= a < old_uniq.len() ==> old_uniq[a] != r@) by {
                    assert forall|a: int| 0 <= a < old_uniq.len() implies old_uniq[a] != r@ by {
                        if a < pos {
                            assert(lex_lt(old_uniq[a], r@));
                            lemma_lex_irreflexive(r@);
                        } else if a > pos {
                            assert(lex_lt(r@, old_uniq[a]));
                            lemma_lex_irreflexive(r@);
                        } else {
                            assert(lex_lt(r@, old_uniq[a]));
                            lemma_lex_irreflexive(r@);
                        }
                    }
                }
                assert(!done.contains(r@)) by {
                    if done.contains(r@) {
                        let j = choose|j: int| 0 <= j < done.len() && done[j] == r@;
                        assert(old_uniq.contains(done[j]));
                    }
                }
                lemma_occurrences_absent(done, r@);
            }
            uniq.insert(pos, r);
            counts.insert(pos, 1);
            proof {
                let nu = rows_view(uniq@);
                assert(nu =~= old_uniq.insert(pos as int, now[0]));
                assert forall|a: int, b: int| 0 <= a < b < nu.len() implies lex_lt(#[trigger] nu[a], #[trigger] nu[b]) by {
                    if a < pos && b < pos {
                    } else if a < pos && b == pos {
                    } else if a < pos {
                        assert(nu[b] == old_uniq[b - 1]);
                        lemma_lex_transitive(nu[a], r@, nu[b]);
                    } else if a == pos {
                        assert(nu[b] == old_uniq[b - 1]);
                    } else {
                        assert(nu[a] == old_uniq[a - 1] && nu[b] == old_uniq[b - 1]);
                    }
                }
                assert forall|a: int| 0 <= a < nu.len() implies #[trigger] counts@[a] == occurrences(now, nu[a]) as int by {
                    if a < pos {
                        assert(nu[a] == old_uniq[a]);
                        assert(counts@[a] == old_counts[a]);
                    } else if a > pos {
                        assert(nu[a] == old_uniq[a - 1]);
                        assert(counts@[a] == old_counts[a - 1]);
                    }
                }
                assert forall|a: int| 0 <= a < nu.len() implies #[trigger] counts@[a] >= 1 by {
                    if a < pos {
                        assert(counts@[a] == old_counts[a]);
                    } else if a > pos {
                        assert(counts@[a] == old_counts[a - 1]);
                    }
                }
                assert forall|a: int| 0 <= a < nu.len() implies #[trigger] counts@[a] <= n - rest@.len() by {
                    if a < pos {
                        assert(counts@[a] == old_counts[a]);
                    } else if a > pos {
                        assert(counts@[a] == old_counts[a - 1]);
                    }
                }
                assert forall|j: int| 0 <= j < now.len() implies #[trigger] nu.contains(now[j]) by {
                    if j == 0 {
                        assert(nu[pos as int] == now[0]);
                    } else {
                        assert(now[j] == done[j - 1]);
                        assert(old_uniq.contains(done[j - 1]));
                        let a = choose|a: int| 0 <= a < old_uniq.len() && old_uniq[a] == done[j - 1];
                        if a < pos {
                            assert(nu[a] == now[j]);
                        } else {
                            assert(nu[a + 1] == now[j]);
                        }
                    }
                }
            }
        }
    }
    assert(all.skip(0) =~= all);
    (uniq, counts)
}

/// Occurrences in a concatenation add up.
pub proof fn lemma_occurrences_concat(a: Seq<Seq<i64>>, b: Seq<Seq<i64>>, x: Seq<i64>)
    ensures
        occurrences(a + b, x) == occurrences(a, x) + occurrences(b, x),
    decreases a.len(),
{
    if a.len() == 0 {
        assert(a + b =~= b);
    } else {
        assert((a + b).drop_first() =~= a.drop_first() + b);
        assert((a + b)[0] == a[0]);
        lemma_occurrences_concat(a.drop_first(), b, x);
    }
}

/// A row that is absent from `s` occurs zero times.
pub proof fn lemma_occurrences_absent(s: Seq<Seq<i64>>, x: Seq<i64>)
    requires
        !s.contains(x),
    ensures
        occurrences(s, x) == 0,
    decreases s.len(),
{
    if s.len() > 0 {
        assert(s[0] != x);
        assert forall|j: int| 0 <= j < s.drop_first().len() implies s.drop_first()[j] != x by {
            assert(s.drop_first()[j] == s[j + 1]);
        }
        lemma_occurrences_absent(s.drop_first(), x);
    }
}

/// Lexicographic order on index sequences.
pub open spec fn index_lex_lt(a: Seq<usize>, b: Seq<usize>) -> bool
    decreases a.len(),
{
    if a.len() == 0 {
        b.len() > 0
    } else if b.len() == 0 {
        false
    } else if a[0] < b[0] {
        true
    } else if a[0] > b[0] {
        false
    } else {
        index_lex_lt(a.drop_first(), b.drop_first())
    }
}

/// Two sequences that agree on their first `l` entries and then differ at
/// entry `l` are ordered by that entry.
pub proof fn lemma_first_difference_orders(a: Seq<usize>, b: Seq<usize>, l: int)
    requires
        0 <= l < a.len(),
        l < b.len(),
        a.take(l) == b.take(l),
        a[l] < b[l],
    ensures
        index_lex_lt(a, b),
    decreases l,
{
    if l > 0 {
        assert(a[0] == a.take(l)[0]);
        assert(b[0] == b.take(l)[0]);
        assert(a.drop_first().take(l - 1) =~= a.take(l).drop_first());
        assert(b.drop_first().take(l - 1) =~= b.take(l).drop_first());
        lemma_first_difference_orders(a.drop_first(), b.drop_first(), l - 1);
    }
}


/// The pairs `(order[a], order[b])` for positions `a < b`, with `a` below `c`,
/// ordered by `a` and then `b`.
pub open spec fn pairs_upto(order: Seq<usize>, c: nat) -> Seq<(usize, usize)>
    decreases c,
{
    if c == 0 || c > order.len() {
        Seq::empty()
    } else {
        pairs_upto(order, (c - 1) as nat) + pairs_from_position(order, c - 1)
    }
}

/// The pairs `(order[a], order[b])` for every later position `b`.
pub open spec fn pairs_from_position(order: Seq<usize>, a: int) -> Seq<(usize, usize)> {
    order.subrange(a + 1, order.len() as int).map_values(|t: usize| (order[a], t))
}

/// Every pair `(earlier, later)` of entries of `order`, ordered by the
/// position of the earlier entry and then of the later one.
pub open spec fn ordered_pairs_spec(order: Seq<usize>) -> Seq<(usize, usize)> {
    pairs_upto(order, order.len())
}

/// `(order[a], order[b])` for all positions `a < b`, in row-major order of
/// the positions.
pub fn ordered_pairs(order: &Vec<usize>) -> (r: Vec<(usize, usize)>)
    ensures
        r@ == ordered_pairs_spec(order@),
{
    let n = order.len();
    let mut r: Vec<(usize, usize)> = Vec::new();
    let mut a: usize = 0;
    while a < n
        invariant
            n == order@.len(),
            a <= n,
            r@ == pairs_upto(order@, a as nat),
        decreases n - a,
    {
        let ghost base = r@;
        let mut b: usize = a + 1;
        while b < n
            invariant
                n == order@.len(),
                a < n,
                a + 1 <= b <= n,
                r@ == base + pairs_from_position(order@, a as int).take(b - a - 1),
            decreases n - b,
        {
            let ghost prev = r@;
            r.push((order[a], order[b]));
            proof {
                let row = pairs_from_position(order@, a as int);
                assert(row.take(b - a) =~= row.take(b - a - 1).push(row[b - a - 1]));
                assert(row[b - a - 1] == (order@[a as int], order@[b as int]));
                assert(r@ =~= base + row.take(b - a));
            }
            b = b + 1;
        }
        proof {
            let row = pairs_from_position(order@, a as int);
            assert(row.take(n - a - 1) =~= row);
            assert(pairs_upto(order@, (a + 1) as nat) == pairs_upto(order@, a as nat) + row);
        }
        a = a + 1;
    }
    r
}

/// Row-major order on index pairs.
pub open spec fn index_pair_lt(x: (usize, usize), y: (usize, usize)) -> bool {
    x.0 < y.0 || (x.0 == y.0 && x.1 < y.1)
}

/// All pairs `(i, j)` with `i < j < d`, in row-major order.
pub fn upper_pairs(d: usize) -> (r: Vec<(usize, usize)>)
    ensures
        forall|k: int| #![trigger r@[k]] 0 <= k < r@.len() ==> r@[k].0 < r@[k].1 && r@[k].1 < d,
        forall|k: int, l: int| 0 <= k < l < r@.len() ==> index_pair_lt(#[trigger] r@[k], #[trigger] r@[l]),
        forall|i: usize, j: usize| i < j < d ==> #[trigger] r@.contains((i, j)),
{
    let mut r: Vec<(usize, usize)> = Vec::new();
    let mut i: usize = 0;
    while i < d
        invariant
            i <= d,
            forall|k: int| #![trigger r@[k]] 0 <= k < r@.len() ==> r@[k].0 < r@[k].1 && r@[k].1 < d && r@[k].0 < i,
            forall|k: int, l: int| 0 <= k < l < r@.len() ==> index_pair_lt(#[trigger] r@[k], #[trigger] r@[l]),
            forall|x: usize, y: usize| x < y < d && x < i ==> #[trigger] r@.contains((x, y)),
        decreases d - i,
    {
        let mut j: usize = i + 1;
        while j < d
            invariant
                i < d,
                i + 1 <= j <= d,
                forall|k: int| #![trigger r@[k]] 0 <= k < r@.len() ==> r@[k].0 < r@[k].1 && r@[k].1 < d
                    && (r@[k].0 < i || (r@[k].0 == i && r@[k].1 < j)),
                forall|k: int, l: int| 0 <= k < l < r@.len() ==> index_pair_lt(#[trigger] r@[k], #[trigger] r@[l]),
                forall|x: usize, y: usize| x < y < d && (x < i || (x == i && y < j)) ==> #[trigger] r@.contains((x, y)),
            decreases d - j,
        {
            let ghost prev = r@;
            r.push((i, j));
            proof {
                assert forall|x: usize, y: usize| x < y < d && (x < i || (x == i && y < j + 1))
                    implies #[trigger] r@.contains((x, y)) by {
                    if x == i && y == j {
                        assert(r@[prev.len() as int] == (x, y));
                    } else {
                        assert(prev.contains((x, y)));
                        let k = choose|k: int| 0 <= k < prev.len() && prev[k] == (x, y);
                        assert(r@[k] == (x, y));
                    }
                }
            }
            j = j + 1;
        }
        i = i + 1;
    }
    r
}


/// `(c1, r1)` comes before `(c2, r2)` in a ranking by count, largest first,
/// and among equal counts by lexicographic order of the rows.
pub open spec fn ranks_higher(c1: int, r1: Seq<i64>, c2: int, r2: Seq<i64>) -> bool {
    c1 > c2 || (c1 == c2 && lex_lt(r1, r2))
}

/// `out` and `counts` rank the distinct rows of `rows` by their number of
/// occurrences (largest first, ties in lexicographic order), keeping the
/// first `limit` of them when a limit is given.
pub open spec fn is_ranked_count(
    rows: Seq<Seq<i64>>,
    limit: Option<usize>,
    out: Seq<Seq<i64>>,
    counts: Seq<i64>,
) -> bool {
    &&& out.len() == counts.len()
    &&& limit matches Some(n) ==> out.len() <= n
    &&& forall|k: int| 0 <= k < out.len() ==> #[trigger] counts[k] == occurrences(rows, out[k]) as int
        && counts[k] >= 1
    &&& forall|a: int, b: int| 0 <= a < b < out.len()
        ==> ranks_higher(#[trigger] counts[a] as int, out[a], #[trigger] counts[b] as int, out[b])
    &&& forall|j: int| 0 <= j < rows.len() ==> #[trigger] out.contains(rows[j]) || (limit matches Some(n)
        && out.len() == n && forall|k: int| 0 <= k < out.len()
            ==> ranks_higher(counts[k] as int, out[k], occurrences(rows, rows[j]) as int, rows[j]))
}

/// The distinct rows ranked by how often they occur, most frequent first and
/// ties in lexicographic order, cut to the first `limit` (the
/// `unique` + stable `argsort` + truncate pattern of the bootstrap counts).
pub fn ranked_counts(rows: Vec<Vec<i64>>, limit: Option<usize>) -> (res: (Vec<Vec<i64>>, Vec<i64>))
    requires
        rows@.len() < i64::MAX,
    ensures
        is_ranked_count(rows_view(rows@), limit, rows_view(res.0@), res.1@),
{
    let ghost all = rows_view(rows@);
    let (uniq, counts) = unique_rows(rows);
    let ghost uv = rows_view(uniq@);
    let order = argsort_desc(counts.as_slice());
    let n = match limit {
        Some(l) => if l < order.len() { l } else { order.len() },
        None => order.len(),
    };
    let mut out: Vec<Vec<i64>> = Vec::new();
    let mut out_counts: Vec<i64> = Vec::new();
    let mut k: usize = 0;
    while k < n
        invariant
            n <= order@.len(),
            k <= n,
            is_unique_count(all, uv, counts@),
            uv == rows_view(uniq@),
            is_stable_desc_argsort(counts@, order@),
            out@.len() == k,
            out_counts@.len() == k,
            forall|q: int| 0 <= q < k ==> #[trigger] rows_view(out@)[q] == uv[order@[q] as int],
            forall|q: int| 0 <= q < k ==> #[trigger] out_counts@[q] == counts@[order@[q] as int],
        decreases n - k,
    {
        let o = order[k];
        let row = crate::direct_lingam::copy_row(&uniq[o]);
        assert(row@ == uv[o as int]);
        let ghost prev = out@;
        out.push(row);
        out_counts.push(counts[o]);
        proof {
            assert forall|q: int| 0 <= q < k + 1 implies #[trigger] rows_view(out@)[q] == uv[order@[q] as int] by {
                if q < k {
                    assert(out@[q] == prev[q]);
                    assert(rows_view(prev)[q] == prev[q]@);
                }
            }
        }
        k = k + 1;
    }
    proof {
        let ov = rows_view(out@);
        let oc = out_counts@;
        assert forall|a: int, b: int| 0 <= a < b < ov.len()
            implies ranks_higher(#[trigger] oc[a] as int, ov[a], #[trigger] oc[b] as int, ov[b]) by {
            let oa = order@[a] as int;
            let ob = order@[b] as int;
            assert(ranks_before(counts@, oa, ob));
            assert(ov[a] == uv[oa] && ov[b] == uv[ob]);
        }
        assert forall|q: int| 0 <= q < ov.len() implies #[trigger] oc[q] == occurrences(all, ov[q]) as int && oc[q] >= 1 by {
            assert(ov[q] == uv[order@[q] as int]);
        }
        assert forall|j: int| 0 <= j < all.len() implies #[trigger] ov.contains(all[j]) || (limit matches Some(lim)
            && ov.len() == lim && forall|q: int| 0 <= q < ov.len()
                ==> ranks_higher(oc[q] as int, ov[q], occurrences(all, all[j]) as int, all[j])) by {
            assert(uv.contains(all[j]));
            let u = choose|u: int| 0 <= u < uv.len() && uv[u] == all[j];
            assert(order@.contains(u as usize));
            let pos = choose|pos: int| 0 <= pos < order@.len() && order@[pos] == u as usize;
            if pos < n {
                assert(ov[pos] == all[j]);
            } else {
                assert forall|q: int| 0 <= q < ov.len()
                    implies ranks_higher(oc[q] as int, ov[q], occurrences(all, all[j]) as int, all[j]) by {
                    assert(ranks_before(counts@, order@[q] as int, order@[pos] as int));
                    assert(ov[q] == uv[order@[q] as int]);
                }
            }
        }
    }
    (out, out_counts)
}

/// A count given as a signed integer that must be at least one (the number
/// of bootstrap samples, the number of explanatory variables): `None` when it
/// is zero or negative.
pub fn positive_count(n: i64) -> (r: Option<usize>)
    ensures
        n <= 0 ==> r is None,
        0 < n <= usize::MAX ==> r == Some(n as usize),
        n > usize::MAX ==> r is None,
{
    if n <= 0 {
        None
    } else if n as u64 > usize::MAX as u64 {
        None
    } else {
        Some(n as usize)
    }
}

/// An element is kept by a filter exactly when it is in the sequence and
/// passes the predicate.
pub proof fn lemma_filter_member<A>(s: Seq<A>, pred: spec_fn(A) -> bool, x: A)
    ensures
        s.filter(pred).contains(x) <==> (s.contains(x) && pred(x)),
{
    if s.filter(pred).contains(x) {
        s.lemma_filter_contains_rev(pred, x);
        let k = choose|k: int| 0 <= k < s.filter(pred).len() && s.filter(pred)[k] == x;
        s.lemma_filter_pred(pred, k);
    }
    if s.contains(x) && pred(x) {
        let k = choose|k: int| 0 <= k < s.len() && s[k] == x;
        s.lemma_filter_contains(pred, k);
    }
}

} // verus!
