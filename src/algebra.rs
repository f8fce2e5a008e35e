//! The mathematical model of the sequence algebra: shapes, stamps, periodic
//! blocks and the quasi-periodic evaluation of harmonic patterns, all stated
//! over unbounded integers.
use vstd::arithmetic::div_mod::*;
use vstd::arithmetic::mul::*;
use vstd::prelude::*;

verus! {

/// The integer values of a list of 16-bit numbers.
pub open spec fn ints(v: Seq<i16>) -> Seq<int> {
    v.map_values(|x: i16| x as int)
}

/// Every value lies in the range of `i16`.
pub open spec fn fits_i16(s: Seq<int>) -> bool {
    forall|i: int| 0 <= i < s.len() ==> i16::MIN <= #[trigger] s[i] <= i16::MAX
}

/// The sum of all values.
pub open spec fn sum(s: Seq<int>) -> int
    decreases s.len(),
{
    if s.len() == 0 {
        0
    } else {
        sum(s.drop_last()) + s.last()
    }
}

/// The largest value of a non-empty list.
pub open spec fn max_of(s: Seq<int>) -> int
    decreases s.len(),
{
    if s.len() <= 1 {
        s[0]
    } else if max_of(s.drop_last()) >= s.last() {
        max_of(s.drop_last())
    } else {
        s.last()
    }
}

/// The smallest value of a non-empty list.
pub open spec fn min_of(s: Seq<int>) -> int
    decreases s.len(),
{
    if s.len() <= 1 {
        s[0]
    } else if min_of(s.drop_last()) <= s.last() {
        min_of(s.drop_last())
    } else {
        s.last()
    }
}

/// Strictly ascending order (so also free of duplicates).
pub open spec fn ascending(s: Seq<int>) -> bool {
    forall|i: int, j: int| 0 <= i < j < s.len() ==> s[i] < s[j]
}

/// Non-decreasing order.
pub open spec fn sorted(s: Seq<int>) -> bool {
    forall|i: int, j: int| 0 <= i <= j < s.len() ==> s[i] <= s[j]
}

/// Every value is positive.
pub open spec fn all_positive(s: Seq<int>) -> bool {
    forall|i: int| 0 <= i < s.len() ==> 0 < #[trigger] s[i]
}

/// Every value is a residue modulo `m`, that is, lies in `[0, m)`.
pub open spec fn residues(s: Seq<int>, m: int) -> bool {
    forall|i: int| 0 <= i < s.len() ==> 0 <= #[trigger] s[i] < m
}

/// Linear shape: the differences between adjacent values (one fewer than the values).
pub open spec fn diffs(s: Seq<int>) -> Seq<int> {
    Seq::new(
        if s.len() == 0 {
            0
        } else {
            (s.len() - 1) as nat
        },
        |i: int| s[i + 1] - s[i],
    )
}

/// Cyclic differences: as `diffs`, followed by the step from the last value back to the first.
pub open spec fn ring_diffs(s: Seq<int>) -> Seq<int> {
    Seq::new(s.len(), |i: int| s[(i + 1) % (s.len() as int)] - s[i])
}

/// Each value reduced modulo `m` (Euclidean remainder, in `[0, m)` for `m > 0`).
pub open spec fn reduce(s: Seq<int>, m: int) -> Seq<int> {
    s.map_values(|x: int| x % m)
}

/// Each value shifted by `t`.
pub open spec fn shift(s: Seq<int>, t: int) -> Seq<int> {
    s.map_values(|x: int| x + t)
}

/// Stamping a linear shape: the running sums of `d` starting at `start`
/// (`start`, `start + d[0]`, ..., one more value than `d` holds).
pub open spec fn stamp_linear(d: Seq<int>, start: int) -> Seq<int> {
    Seq::new(d.len() + 1, |i: int| start + sum(d.take(i)))
}

/// Running sums of `d` without the starting zero: `d[0]`, `d[0] + d[1]`, ...
pub open spec fn running_sums(d: Seq<int>) -> Seq<int> {
    Seq::new(d.len(), |i: int| sum(d.take(i + 1)))
}

/// Cyclic shape of a residue list modulo `m`: the cyclic differences reduced
/// modulo `m`; a single residue has the whole modulus as its shape.
pub open spec fn residue_shape(s: Seq<int>, m: int) -> Seq<int> {
    if s.len() == 1 {
        seq![m]
    } else {
        reduce(ring_diffs(s), m)
    }
}

/// How many values lie below `m`.
pub open spec fn count_below(v: Seq<int>, m: int) -> nat
    decreases v.len(),
{
    if v.len() == 0 {
        0
    } else {
        count_below(v.drop_last(), m) + if v.last() < m {
            1nat
        } else {
            0nat
        }
    }
}

/// The residues modulo `m` of an ascending list that spans less than `m`
/// (with values in `[0, 2m)`), listed in ascending order: the reduced
/// values, rotated to begin at the first value that wrapped around.
pub open spec fn ascending_residues(v: Seq<int>, m: int) -> Seq<int> {
    rotate_left(reduce(v, m), count_below(v, m) as int)
}

/// The residues of a residue set transposed by `t`, listed in ascending order.
pub open spec fn transposed_set(c: Seq<int>, t: int, m: int) -> Seq<int> {
    ascending_residues(shift(c, t % m), m)
}

/// Stamping a cyclic shape onto a residue: the running sums from `start`
/// of all intervals but the last (which only closes the cycle), reduced
/// modulo the sum of the intervals and listed in ascending order.
pub open spec fn stamp_cyclic(d: Seq<int>, start: int) -> Seq<int> {
    ascending_residues(stamp_linear(d.drop_last(), start), sum(d))
}

/// Stamping a cyclic shape onto a root, keeping cyclic order from the root:
/// the running sums of all intervals but the last, reduced modulo their sum.
pub open spec fn stamp_key(d: Seq<int>, root: int) -> Seq<int> {
    reduce(stamp_linear(d.drop_last(), root), sum(d))
}

/// Left rotation by `n` places (taken modulo the length).
pub open spec fn rotate_left<A>(s: Seq<A>, n: int) -> Seq<A> {
    if s.len() == 0 {
        s
    } else {
        s.skip(n % (s.len() as int)) + s.take(n % (s.len() as int))
    }
}

/// The whole list, `n` times over.
pub open spec fn repeat_seq<A>(s: Seq<A>, n: nat) -> Seq<A> {
    Seq::new(s.len() * n, |i: int| s[i % (s.len() as int)])
}

/// Each element `n` times in place.
pub open spec fn stretch_seq<A>(s: Seq<A>, n: nat) -> Seq<A> {
    Seq::new(s.len() * n, |i: int| s[i / (n as int)])
}

/// `s` is the block of its first `d` elements repeated a whole number of times.
pub open spec fn tiles<A>(s: Seq<A>, d: int) -> bool {
    &&& 0 < d <= s.len()
    &&& (s.len() as int) % d == 0
    &&& forall|i: int| 0 <= i < s.len() ==> #[trigger] s[i] == s[i % d]
}

/// The least block size, not below `d`, that tiles `s` (the whole length if none smaller does).
pub open spec fn least_tile_from<A>(s: Seq<A>, d: int) -> int
    decreases s.len() - d,
{
    if d >= s.len() {
        s.len() as int
    } else if tiles(s, d) {
        d
    } else {
        least_tile_from(s, d + 1)
    }
}

/// The size of the minimal repeating block of `s`.
pub open spec fn block_size<A>(s: Seq<A>) -> int {
    least_tile_from(s, 1)
}

/// The minimal repeating block of `s` (its prime form).
pub open spec fn aperiodic_block<A>(s: Seq<A>) -> Seq<A> {
    s.take(block_size(s))
}

/// The harmonic pattern with its implicit leading zero: position 0 gives 0,
/// position `r > 0` gives `h[r - 1]`.
pub open spec fn harmonic_at(h: Seq<int>, r: int) -> int {
    if r == 0 {
        0
    } else {
        h[r - 1]
    }
}

/// The quasi-periodic function of a harmonic pattern `h` (last entry the
/// modulus) with offset `t`: `q * M + H[r] + t`, where `i = q * L + r`, `0 <= r < L`.
pub open spec fn eval_pattern(h: Seq<int>, t: int, i: int) -> int {
    (i / (h.len() as int)) * h.last() + harmonic_at(h, i % (h.len() as int)) + t
}

/// The quasi-periodic function applied to every index of a list.
pub open spec fn eval_all(h: Seq<int>, t: int, s: Seq<int>) -> Seq<int> {
    s.map_values(|i: int| eval_pattern(h, t, i))
}

/// The harmonic pattern seen from index `a`: the values at the `L` indices
/// after `a`, less the value at `a`.
pub open spec fn rotated_pattern(h: Seq<int>, t: int, a: int) -> Seq<int> {
    Seq::new(h.len(), |j: int| eval_pattern(h, t, a + j + 1) - eval_pattern(h, t, a))
}

/// Greatest common divisor of two positive integers.
pub open spec fn gcd(a: int, b: int) -> int
    decreases b,
{
    if b <= 0 {
        a
    } else {
        gcd(b, a % b)
    }
}

// ------------------------------------------------------------------
// Sums, rotations and shapes
// ------------------------------------------------------------------

/// The sum of a concatenation is the sum of the sums.
pub proof fn lemma_sum_concat(a: Seq<int>, b: Seq<int>)
    ensures
        sum(a + b) == sum(a) + sum(b),
    decreases b.len(),
{
    if b.len() == 0 {
        assert(a + b =~= a);
    } else {
        lemma_sum_concat(a, b.drop_last());
        assert((a + b).drop_last() =~= a + b.drop_last());
    }
}

/// Element `i` of a left rotation by `k` is element `i + k` (cyclically) of the list.
pub proof fn lemma_rotate_index<A>(s: Seq<A>, k: int, i: int)
    requires
        0 <= k < s.len(),
        0 <= i < s.len(),
    ensures
        rotate_left(s, k)[i] == s[(i + k) % (s.len() as int)],
        rotate_left(s, k).len() == s.len(),
{
    let n = s.len() as int;
    lemma_small_mod(k as nat, n as nat);
    if i + k < n {
        lemma_small_mod((i + k) as nat, n as nat);
    } else {
        lemma_fundamental_div_mod_converse(i + k, n, 1, i + k - n);
    }
}

/// Rotation keeps the sum.
pub proof fn lemma_sum_rotate(s: Seq<int>, k: int)
    requires
        0 <= k < s.len(),
    ensures
        sum(rotate_left(s, k)) == sum(s),
{
    lemma_small_mod(k as nat, s.len());
    lemma_sum_concat(s.skip(k), s.take(k));
    lemma_sum_concat(s.take(k), s.skip(k));
    assert(s.take(k) + s.skip(k) =~= s);
}

/// The differences of a list add up to its last value minus its first.
pub proof fn lemma_sum_diffs(s: Seq<int>)
    requires
        s.len() > 0,
    ensures
        sum(diffs(s)) == s.last() - s[0],
    decreases s.len(),
{
    if s.len() == 1 {
        assert(diffs(s).len() == 0);
    } else {
        lemma_sum_diffs(s.drop_last());
        assert(diffs(s).drop_last() =~= diffs(s.drop_last()));
    }
}

/// The cyclic shape of a strictly ascending residue list: every interval is
/// positive, the intervals add up to the modulus, and all but the last are
/// the plain differences.
pub proof fn lemma_scale_shape(c: Seq<int>, m: int)
    requires
        0 < m,
        residues(c, m),
        ascending(c),
        c.len() > 0,
    ensures
        all_positive(residue_shape(c, m)),
        sum(residue_shape(c, m)) == m,
        residue_shape(c, m).len() == c.len(),
        residue_shape(c, m).drop_last() == diffs(c),
{
    let n = c.len() as int;
    let d = residue_shape(c, m);
    if n == 1 {
        assert(d.drop_last() =~= diffs(c));
        assert(d.drop_last() =~= Seq::<int>::empty());
        assert(sum(d.drop_last()) == 0);
    } else {
        assert forall|i: int| 0 <= i < n - 1 implies #[trigger] d[i] == c[i + 1] - c[i] by {
            lemma_small_mod((i + 1) as nat, n as nat);
            lemma_small_mod((c[i + 1] - c[i]) as nat, m as nat);
        }
        lemma_mod_self_0(n);
        lemma_fundamental_div_mod_converse(c[0] - c[n - 1], m, -1, c[0] - c[n - 1] + m);
        assert(d[n - 1] == c[0] - c[n - 1] + m);
        assert(d.drop_last() =~= diffs(c));
        lemma_sum_diffs(c);
        assert(sum(d) == sum(diffs(c)) + d[n - 1]);
    }
}

/// Taking integer values commutes with rotation.
pub proof fn lemma_ints_rotate(v: Seq<i16>, k: int)
    requires
        0 <= k < v.len(),
    ensures
        ints(rotate_left(v, k)) == rotate_left(ints(v), k),
{
    assert(ints(rotate_left(v, k)) =~= rotate_left(ints(v), k));
}

/// Rotating a residue list rotates its cyclic shape, so positivity and the
/// sum of the shape carry over.
pub proof fn lemma_residue_shape_of_rotation(s: Seq<int>, m: int, k: int)
    requires
        0 < m,
        0 <= k < s.len(),
        residues(s, m),
    ensures
        residue_shape(rotate_left(s, k), m) == rotate_left(residue_shape(s, m), k),
        residues(rotate_left(s, k), m),
        rotate_left(s, k).len() == s.len(),
        all_positive(residue_shape(s, m)) ==> all_positive(residue_shape(rotate_left(s, k), m)),
        sum(residue_shape(rotate_left(s, k), m)) == sum(residue_shape(s, m)),
{
    let n = s.len() as int;
    let r = rotate_left(s, k);
    assert forall|i: int| 0 <= i < n implies #[trigger] r[i] == s[(i + k) % n] by {
        lemma_rotate_index(s, k, i);
    }
    assert(residues(r, m)) by {
        assert forall|i: int| 0 <= i < n implies 0 <= #[trigger] r[i] < m by {
            lemma_mod_bound(i + k, n);
        }
    }
    if n == 1 {
        lemma_small_mod(0, 1);
        assert(r =~= s);
        assert(rotate_left(residue_shape(s, m), k) =~= residue_shape(s, m));
    } else {
        let d = residue_shape(s, m);
        let rd = rotate_left(d, k);
        assert forall|i: int| 0 <= i < n implies #[trigger] residue_shape(r, m)[i] == rd[i] by {
            lemma_rotate_index(d, k, i);
            lemma_mod_bound(i + 1, n);
            lemma_mod_bound(i + k, n);
            lemma_add_mod_noop(i + 1, k, n);
            lemma_add_mod_noop(i + k, 1, n);
            lemma_small_mod(k as nat, n as nat);
            lemma_small_mod(1, n as nat);
            lemma_mod_twice(i + k + 1, n);
            assert((i + 1 + k) % n == ((i + 1) % n + k) % n);
            assert((i + k + 1) % n == ((i + k) % n + 1) % n);
        }
        assert(residue_shape(r, m) =~= rd);
        lemma_sum_rotate(d, k);
        if all_positive(d) {
            assert forall|i: int| 0 <= i < n implies 0 < #[trigger] rd[i] by {
                lemma_rotate_index(d, k, i);
                lemma_mod_bound(i + k, n);
            }
        }
    }
}

/// Prefix sums of positive values grow strictly and stay within the total.
pub proof fn lemma_prefix_sums_increase(d: Seq<int>, i: int, j: int)
    requires
        all_positive(d),
        0 <= i < j <= d.len(),
    ensures
        0 <= sum(d.take(i)) < sum(d.take(j)) <= sum(d),
    decreases j,
{
    assert(d.take(j).drop_last() =~= d.take(j - 1));
    if i < j - 1 {
        lemma_prefix_sums_increase(d, i, j - 1);
    } else {
        lemma_prefix_sums_nonneg(d, i);
    }
    lemma_prefix_sum_within_total(d, j);
}

/// A prefix sum of positive values is at most the total.
pub proof fn lemma_prefix_sum_within_total(d: Seq<int>, j: int)
    requires
        all_positive(d),
        0 <= j <= d.len(),
    ensures
        sum(d.take(j)) <= sum(d),
    decreases d.len() - j,
{
    if j < d.len() {
        assert(d.take(j + 1).drop_last() =~= d.take(j));
        lemma_prefix_sum_within_total(d, j + 1);
    } else {
        assert(d.take(j) =~= d);
    }
}

/// Prefix sums of positive values are not negative.
pub proof fn lemma_prefix_sums_nonneg(d: Seq<int>, i: int)
    requires
        all_positive(d),
        0 <= i <= d.len(),
    ensures
        0 <= sum(d.take(i)),
    decreases i,
{
    if i > 0 {
        assert(d.take(i).drop_last() =~= d.take(i - 1));
        lemma_prefix_sums_nonneg(d, i - 1);
    } else {
        assert(d.take(0) =~= Seq::<int>::empty());
    }
}

/// Stamping positive intervals gives a strictly ascending list.
pub proof fn lemma_stamp_ascending(d: Seq<int>, start: int)
    requires
        all_positive(d),
    ensures
        ascending(stamp_linear(d, start)),
        stamp_linear(d, start)[0] == start,
        stamp_linear(d, start).last() == start + sum(d),
{
    assert(d.take(0) =~= Seq::<int>::empty());
    assert(d.take(d.len() as int) =~= d);
    assert forall|i: int, j: int| 0 <= i < j < stamp_linear(d, start).len() implies stamp_linear(
        d,
        start,
    )[i] < stamp_linear(d, start)[j] by {
        lemma_prefix_sums_increase(d, i, j);
    }
}

/// Below-`m` values of an ascending list form a prefix, counted by `count_below`.
pub proof fn lemma_count_below(v: Seq<int>, m: int)
    requires
        ascending(v),
    ensures
        count_below(v, m) <= v.len(),
        forall|k: int| 0 <= k < count_below(v, m) ==> v[k] < m,
        forall|k: int| count_below(v, m) <= k < v.len() ==> v[k] >= m,
    decreases v.len(),
{
    if v.len() > 0 {
        let w = v.drop_last();
        assert(ascending(w));
        lemma_count_below(w, m);
        assert(forall|k: int| 0 <= k < w.len() ==> v[k] == #[trigger] w[k]);
        let c = count_below(w, m) as int;
        if v.last() < m {
            if c < w.len() {
                assert(w[c] >= m);
                assert(v[c] < v[v.len() - 1]);
            }
            assert(count_below(v, m) == c + 1);
            assert forall|k: int| 0 <= k < count_below(v, m) implies v[k] < m by {
                if k < w.len() {
                    assert(w[k] < m);
                }
            }
        } else {
            assert(count_below(v, m) == c);
            assert forall|k: int| count_below(v, m) <= k < v.len() implies v[k] >= m by {
                if k < w.len() {
                    assert(w[k] >= m);
                }
            }
            assert forall|k: int| 0 <= k < count_below(v, m) implies v[k] < m by {
                assert(w[k] < m);
            }
        }
    }
}

/// The residues of an ascending list spanning less than `m`, with values in
/// `[0, 2m)`, come out strictly ascending, as residues, and as many as the values.
pub proof fn lemma_ascending_residues(v: Seq<int>, m: int)
    requires
        0 < m,
        v.len() > 0,
        ascending(v),
        0 <= v[0],
        v.last() < 2 * m,
        v.last() - v[0] < m,
    ensures
        ascending(ascending_residues(v, m)),
        residues(ascending_residues(v, m), m),
        ascending_residues(v, m).len() == v.len(),
{
    let n = v.len() as int;
    let p = count_below(v, m) as int;
    let red = reduce(v, m);
    lemma_count_below(v, m);
    assert forall|k: int| 0 <= k < n implies #[trigger] red[k] == if k < p {
        v[k]
    } else {
        v[k] - m
    } by {
        if k > 0 {
            assert(v[0] < v[k]);
        }
        assert(v[k] <= v[n - 1]);
        if k < p {
            lemma_small_mod(v[k] as nat, m as nat);
        } else {
            lemma_fundamental_div_mod_converse(v[k], m, 1, v[k] - m);
        }
    }
    let r = ascending_residues(v, m);
    if p == n {
        lemma_mod_self_0(n);
        assert(r =~= red);
        assert forall|i: int, j: int| 0 <= i < j < n implies r[i] < r[j] by {}
        assert forall|i: int| 0 <= i < n implies 0 <= #[trigger] r[i] < m by {
            if i > 0 {
                assert(v[0] < v[i]);
            }
        }
    } else {
        lemma_small_mod(p as nat, n as nat);
        assert forall|i: int| 0 <= i < n implies #[trigger] r[i] == if i < n - p {
            v[i + p] - m
        } else {
            v[i + p - n]
        } by {
            lemma_rotate_index(red, p, i);
            if i + p < n {
                lemma_small_mod((i + p) as nat, n as nat);
            } else {
                lemma_fundamental_div_mod_converse(i + p, n, 1, i + p - n);
            }
        }
        assert forall|i: int, j: int| 0 <= i < j < n implies r[i] < r[j] by {
            if i < n - p && j >= n - p {
                assert(v[i + p] <= v[n - 1]);
                if j + p - n > 0 {
                    assert(v[0] < v[j + p - n]);
                }
            } else if i < n - p {
                assert(v[i + p] < v[j + p]);
            } else {
                assert(v[i + p - n] < v[j + p - n]);
            }
        }
        assert forall|i: int| 0 <= i < n implies 0 <= #[trigger] r[i] < m by {
            if i < n - p {
                assert(v[i + p] <= v[n - 1]);
            } else if i + p - n > 0 {
                assert(v[0] < v[i + p - n]);
            }
        }
    }
}

/// Reduced values are residues.
pub proof fn lemma_reduce_residues(s: Seq<int>, m: int)
    requires
        0 < m,
    ensures
        residues(reduce(s, m), m),
        reduce(s, m).len() == s.len(),
{
    assert forall|i: int| 0 <= i < s.len() implies 0 <= #[trigger] reduce(s, m)[i] < m by {
        lemma_mod_bound(s[i], m);
    }
}

/// The shape of a positive ascending harmonic pattern (with its leading
/// zero) is positive, and sums to the last harmonic.
pub proof fn lemma_pattern_shape(h: Seq<int>)
    requires
        h.len() > 0,
        0 < h[0],
        ascending(h),
    ensures
        all_positive(diffs(seq![0int] + h)),
        sum(diffs(seq![0int] + h)) == h.last(),
        diffs(seq![0int] + h).len() == h.len(),
{
    let full = seq![0int] + h;
    assert forall|i: int| 0 <= i < h.len() implies 0 < #[trigger] diffs(full)[i] by {
        if i > 0 {
            assert(h[i - 1] < h[i]);
        }
    }
    lemma_sum_diffs(full);
}

/// Running sums of positive intervals form a positive ascending pattern
/// ending at the total.
pub proof fn lemma_running_sums(d: Seq<int>)
    requires
        d.len() > 0,
        all_positive(d),
    ensures
        ascending(running_sums(d)),
        0 < running_sums(d)[0],
        running_sums(d).last() == sum(d),
        forall|i: int| 0 <= i < d.len() ==> 0 < #[trigger] running_sums(d)[i] <= sum(d),
{
    let r = running_sums(d);
    assert forall|i: int, j: int| 0 <= i < j < r.len() implies r[i] < r[j] by {
        lemma_prefix_sums_increase(d, i + 1, j + 1);
    }
    assert forall|i: int| 0 <= i < d.len() implies 0 < #[trigger] r[i] <= sum(d) by {
        lemma_prefix_sums_increase(d, 0, i + 1);
        assert(d.take(0) =~= Seq::<int>::empty());
    }
    assert(d.take(d.len() as int) =~= d);
}

/// The shape of a shape stamped as a key is that shape: stamping positive
/// intervals onto a residue of their sum and taking the cyclic shape again
/// gives the intervals back.
pub proof fn lemma_stamp_key_shape(d: Seq<int>, root: int)
    requires
        d.len() > 0,
        all_positive(d),
        0 <= root < sum(d),
    ensures
        residue_shape(stamp_key(d, root), sum(d)) == d,
        residues(stamp_key(d, root), sum(d)),
        stamp_key(d, root).len() == d.len(),
        stamp_key(d, root)[0] == root,
{
    let n = d.len() as int;
    let m = sum(d);
    let dl = d.drop_last();
    let v = stamp_linear(dl, root);
    let w = stamp_key(d, root);
    lemma_reduce_residues(v, m);
    assert(dl.take(0) =~= Seq::<int>::empty());
    lemma_small_mod(root as nat, m as nat);
    if n == 1 {
        assert(d.drop_last() =~= Seq::<int>::empty());
        assert(residue_shape(w, m) =~= d);
    } else {
        assert forall|i: int| 0 <= i < n implies d[i] < m by {
            lemma_prefix_sums_increase(d, i, i + 1);
            assert(d.take(i + 1).drop_last() =~= d.take(i));
            if i > 0 {
                lemma_prefix_sums_increase(d, 0, i);
                assert(d.take(0) =~= Seq::<int>::empty());
            } else {
                lemma_prefix_sums_increase(d, 1, n);
                assert(d.take(n) =~= d);
            }
        }
        assert forall|i: int| 0 <= i < n implies #[trigger] residue_shape(w, m)[i] == d[i] by {
            if i < n - 1 {
                lemma_small_mod((i + 1) as nat, n as nat);
                assert(dl.take(i + 1).drop_last() =~= dl.take(i));
                assert(v[i + 1] - v[i] == d[i]);
                lemma_sub_mod_noop(v[i + 1], v[i], m);
                lemma_small_mod(d[i] as nat, m as nat);
            } else {
                lemma_mod_self_0(n);
                assert(dl.take(n - 1) =~= dl);
                assert(sum(d) == sum(dl) + d[n - 1]);
                assert(v[0] - v[n - 1] == d[n - 1] - m);
                lemma_sub_mod_noop(v[0], v[n - 1], m);
                lemma_fundamental_div_mod_converse(d[n - 1] - m, m, -1, d[n - 1]);
            }
        }
        assert(residue_shape(w, m) =~= d);
    }
}

/// A positive ascending pattern gives a strictly increasing function: one
/// step up in the index moves strictly up in value.
pub proof fn lemma_eval_step(h: Seq<int>, t: int, i: int)
    requires
        h.len() > 0,
        0 < h[0],
        ascending(h),
    ensures
        eval_pattern(h, t, i) < eval_pattern(h, t, i + 1),
{
    let l = h.len() as int;
    let q = i / l;
    let r = i % l;
    let m = h.last();
    lemma_fundamental_div_mod(i, l);
    lemma_mod_bound(i, l);
    lemma_mul_is_commutative(l, q);
    if r < l - 1 {
        lemma_fundamental_div_mod_converse(i + 1, l, q, r + 1);
        if r > 0 {
            assert(h[r - 1] < h[r]);
        }
    } else {
        lemma_mul_is_distributive_add_other_way(l, q, 1);
        lemma_fundamental_div_mod_converse(i + 1, l, q + 1, 0);
        lemma_mul_is_distributive_add_other_way(m, q, 1);
        if l > 1 {
            assert(h[l - 2] < h[l - 1]);
        }
    }
}

/// A positive ascending pattern gives a strictly increasing function.
pub proof fn lemma_eval_monotone(h: Seq<int>, t: int, i: int, j: int)
    requires
        h.len() > 0,
        0 < h[0],
        ascending(h),
        i < j,
    ensures
        eval_pattern(h, t, i) < eval_pattern(h, t, j),
    decreases j - i,
{
    lemma_eval_step(h, t, j - 1);
    if i < j - 1 {
        lemma_eval_monotone(h, t, i, j - 1);
    }
}

/// Moving `q` whole periods moves the value by `q` times the modulus.
pub proof fn lemma_eval_periodic(h: Seq<int>, t: int, i: int, q: int)
    requires
        h.len() > 0,
    ensures
        eval_pattern(h, t, i + q * (h.len() as int)) == eval_pattern(h, t, i) + q * h.last(),
{
    let l = h.len() as int;
    lemma_fundamental_div_mod(i, l);
    lemma_mod_bound(i, l);
    assert(i + q * l == (i / l + q) * l + i % l) by (nonlinear_arith)
        requires
            i == l * (i / l) + i % l,
    ;
    lemma_fundamental_div_mod_converse(i + q * l, l, i / l + q, i % l);
    lemma_mul_is_distributive_add_other_way(h.last(), i / l, q);
}

/// The rotated pattern depends on the index only modulo the length.
pub proof fn lemma_rotated_pattern_periodic(h: Seq<int>, t: int, a: int)
    requires
        h.len() > 0,
    ensures
        rotated_pattern(h, t, a) == rotated_pattern(h, t, a % (h.len() as int)),
{
    let l = h.len() as int;
    let b = a % l;
    let q = a / l;
    lemma_fundamental_div_mod(a, l);
    lemma_mul_is_commutative(l, q);
    assert forall|j: int| 0 <= j < l implies #[trigger] rotated_pattern(h, t, a)[j]
        == rotated_pattern(h, t, b)[j] by {
        lemma_eval_periodic(h, t, b + j + 1, q);
        lemma_eval_periodic(h, t, b, q);
        assert(a + j + 1 == (b + j + 1) + q * l);
    }
    assert(rotated_pattern(h, t, a) =~= rotated_pattern(h, t, b));
}

/// Seen from any index, a positive ascending pattern is again positive and
/// ascending, and ends at the same modulus.
pub proof fn lemma_rotated_pattern_wf(h: Seq<int>, t: int, a: int)
    requires
        h.len() > 0,
        0 < h[0],
        ascending(h),
    ensures
        ascending(rotated_pattern(h, t, a)),
        0 < rotated_pattern(h, t, a)[0],
        rotated_pattern(h, t, a).last() == h.last(),
        forall|j: int| 0 <= j < h.len() ==> 0 < #[trigger] rotated_pattern(h, t, a)[j] <= h.last(),
{
    let l = h.len() as int;
    let r = rotated_pattern(h, t, a);
    lemma_eval_periodic(h, t, a, 1);
    assert forall|i: int, j: int| 0 <= i < j < l implies r[i] < r[j] by {
        lemma_eval_monotone(h, t, a + i + 1, a + j + 1);
    }
    assert forall|j: int| 0 <= j < l implies 0 < #[trigger] r[j] <= h.last() by {
        lemma_eval_monotone(h, t, a, a + j + 1);
        if j < l - 1 {
            lemma_eval_monotone(h, t, a + j + 1, a + l);
        }
    }
}

/// Shifting and reducing a residue list keeps its cyclic shape.
pub proof fn lemma_residue_shape_shift(s: Seq<int>, c: int, m: int)
    requires
        0 < m,
    ensures
        residue_shape(reduce(shift(s, c), m), m) == residue_shape(s, m),
        residues(reduce(shift(s, c), m), m),
        reduce(shift(s, c), m).len() == s.len(),
{
    let w = reduce(shift(s, c), m);
    lemma_reduce_residues(shift(s, c), m);
    if s.len() != 1 {
        let n = s.len() as int;
        assert forall|i: int| 0 <= i < n implies #[trigger] residue_shape(w, m)[i] == residue_shape(s, m)[i] by {
            let k = (i + 1) % n;
            lemma_mod_bound(i + 1, n);
            lemma_sub_mod_noop(s[k] + c, s[i] + c, m);
        }
        assert(residue_shape(w, m) =~= residue_shape(s, m));
    }
}

/// The sum of a list repeated `n` times is `n` times its sum.
pub proof fn lemma_sum_repeat(s: Seq<int>, n: nat)
    ensures
        sum(repeat_seq(s, n)) == n * sum(s),
        repeat_seq(s, n).len() == s.len() * n,
    decreases n,
{
    if n > 0 {
        lemma_sum_repeat(s, (n - 1) as nat);
        lemma_repeat_step(s, (n - 1) as nat);
        lemma_sum_concat(repeat_seq(s, (n - 1) as nat), s);
        lemma_mul_is_distributive_add_other_way(sum(s), (n - 1) as int, 1);
    } else {
        assert(repeat_seq(s, 0) =~= Seq::<int>::empty());
    }
}

/// One more repetition appends the list once more.
pub proof fn lemma_repeat_step<A>(s: Seq<A>, k: nat)
    ensures
        repeat_seq(s, k + 1) == repeat_seq(s, k) + s,
{
    let len = s.len() as int;
    let prev = repeat_seq(s, k);
    let next = repeat_seq(s, k + 1);
    lemma_mul_is_distributive_add(len, k as int, 1);
    assert forall|i: int| 0 <= i < next.len() implies next[i] == (prev + s)[i] by {
        if i >= prev.len() {
            lemma_mul_is_commutative(len, k as int);
            lemma_fundamental_div_mod_converse(i, len, k as int, i - len * k);
        }
    }
    assert(next =~= prev + s);
}

/// The sum of a list stretched `n` times is `n` times its sum.
pub proof fn lemma_sum_stretch(s: Seq<int>, n: nat)
    ensures
        sum(stretch_seq(s, n)) == n * sum(s),
        stretch_seq(s, n).len() == s.len() * n,
    decreases s.len(),
{
    if s.len() == 0 {
        assert(stretch_seq(s, n) =~= Seq::<int>::empty());
    } else if n == 0 {
        assert(stretch_seq(s, n) =~= Seq::<int>::empty());
    } else {
        let w = s.drop_last();
        lemma_sum_stretch(w, n);
        let x = s.last();
        let tail = repeat_seq(seq![x], n);
        lemma_sum_repeat(seq![x], n);
        assert(sum(seq![x]) == x) by {
            assert(seq![x].drop_last() =~= Seq::<int>::empty());
            assert(sum(Seq::<int>::empty()) == 0);
            assert(seq![x].last() == x);
        }
        lemma_mul_is_distributive_add_other_way(n as int, w.len() as int, 1);
        assert forall|i: int| 0 <= i < stretch_seq(s, n).len() implies #[trigger] stretch_seq(s, n)[i] == (stretch_seq(w, n) + tail)[i] by {
            let q = i / (n as int);
            lemma_fundamental_div_mod(i, n as int);
            lemma_mod_bound(i, n as int);
            if i < w.len() * n {
                lemma_mul_is_commutative(n as int, w.len() as int);
                assert(q < w.len()) by (nonlinear_arith)
                    requires
                        i == (n as int) * q + i % (n as int),
                        0 <= i % (n as int),
                        i < w.len() * n,
                        n > 0,
                ;
            } else {
                lemma_mul_is_commutative(n as int, w.len() as int);
                lemma_fundamental_div_mod_converse(i, n as int, w.len() as int, i - w.len() * n);
                lemma_small_mod(0, 1);
            }
        }
        assert(stretch_seq(s, n) =~= stretch_seq(w, n) + tail);
        lemma_sum_concat(stretch_seq(w, n), tail);
        lemma_mul_is_distributive_add(n as int, sum(w), x);
    }
}

/// Repetition and stretching keep positivity.
pub proof fn lemma_repeat_stretch_positive(s: Seq<int>, n: nat)
    requires
        all_positive(s),
    ensures
        all_positive(repeat_seq(s, n)),
        all_positive(stretch_seq(s, n)),
{
    assert forall|i: int| 0 <= i < repeat_seq(s, n).len() implies 0 < #[trigger] repeat_seq(s, n)[i] by {
        lemma_mod_bound(i, s.len() as int);
    }
    assert forall|i: int| 0 <= i < stretch_seq(s, n).len() implies 0 < #[trigger] stretch_seq(s, n)[i] by {
        lemma_fundamental_div_mod(i, n as int);
        lemma_mod_bound(i, n as int);
        lemma_div_pos_is_pos(i, n as int);
        lemma_mul_is_commutative(n as int, s.len() as int);
        assert(i / (n as int) < s.len()) by (nonlinear_arith)
            requires
                i == (n as int) * (i / (n as int)) + i % (n as int),
                0 <= i % (n as int),
                i < s.len() * n,
                n > 0,
        ;
    }
}

/// Repetition and stretching keep residues.
pub proof fn lemma_repeat_stretch_residues(s: Seq<int>, n: nat, m: int)
    requires
        residues(s, m),
    ensures
        residues(repeat_seq(s, n), m),
        residues(stretch_seq(s, n), m),
{
    assert forall|i: int| 0 <= i < repeat_seq(s, n).len() implies 0 <= #[trigger] repeat_seq(s, n)[i] < m by {
        lemma_mod_bound(i, s.len() as int);
    }
    assert forall|i: int| 0 <= i < stretch_seq(s, n).len() implies 0 <= #[trigger] stretch_seq(s, n)[i] < m by {
        lemma_fundamental_div_mod(i, n as int);
        lemma_mod_bound(i, n as int);
        lemma_div_pos_is_pos(i, n as int);
        lemma_mul_is_commutative(n as int, s.len() as int);
        assert(i / (n as int) < s.len()) by (nonlinear_arith)
            requires
                i == (n as int) * (i / (n as int)) + i % (n as int),
                0 <= i % (n as int),
                i < s.len() * n,
                n > 0,
        ;
    }
}

// ------------------------------------------------------------------
// Periodicity
// ------------------------------------------------------------------

/// A list always tiles itself.
pub proof fn lemma_tiles_whole<A>(s: Seq<A>)
    requires
        s.len() > 0,
    ensures
        tiles(s, s.len() as int),
{
    assert forall|i: int| 0 <= i < s.len() implies #[trigger] s[i] == s[i % (s.len() as int)] by {
        lemma_small_mod(i as nat, s.len());
    }
    lemma_mod_self_0(s.len() as int);
}

/// The least tiling size from `d` tiles `s`, and no smaller size from `d` does.
pub proof fn lemma_least_tile<A>(s: Seq<A>, d: int)
    requires
        1 <= d <= s.len(),
    ensures
        d <= least_tile_from(s, d) <= s.len(),
        tiles(s, least_tile_from(s, d)),
        forall|k: int| d <= k < least_tile_from(s, d) ==> !tiles(s, k),
    decreases s.len() - d,
{
    if d >= s.len() {
        lemma_tiles_whole(s);
    } else if !tiles(s, d) {
        lemma_least_tile(s, d + 1);
    }
}

/// The least tiling size from `d` is `e` when `e` tiles `s` and no size in `[d, e)` does.
pub proof fn lemma_least_tile_is<A>(s: Seq<A>, d: int, e: int)
    requires
        1 <= d <= e <= s.len(),
        tiles(s, e),
        forall|k: int| d <= k < e ==> !tiles(s, k),
    ensures
        least_tile_from(s, d) == e,
    decreases e - d,
{
    if d < e {
        lemma_least_tile_is(s, d + 1, e);
    }
}

/// The minimal block is a non-empty prefix of a non-empty list; of positive
/// values it is positive, with a positive sum within the total.
pub proof fn lemma_block(d: Seq<int>)
    ensures
        0 <= block_size(d) <= d.len(),
        d.len() > 0 ==> block_size(d) >= 1,
        aperiodic_block(d).len() == block_size(d),
        all_positive(d) ==> all_positive(aperiodic_block(d)),
        all_positive(d) ==> sum(aperiodic_block(d)) <= sum(d),
        all_positive(d) && d.len() > 0 ==> 0 < sum(aperiodic_block(d)),
{
    if d.len() > 0 {
        lemma_least_tile(d, 1);
        if all_positive(d) {
            lemma_prefix_sum_within_total(d, block_size(d));
            lemma_prefix_sums_increase(d, 0, block_size(d));
            assert(d.take(0) =~= Seq::<int>::empty());
        }
    }
}

// ------------------------------------------------------------------
// Divisibility
// ------------------------------------------------------------------

/// Least common multiple of two positive integers, as `a * (b / gcd(a, b))`.
pub open spec fn lcm(a: int, b: int) -> int {
    a * (b / gcd(a, b))
}

/// The least common multiple of all values, starting from 1.
pub open spec fn lcm_all(ms: Seq<int>) -> int
    decreases ms.len(),
{
    if ms.len() == 0 {
        1
    } else {
        lcm(lcm_all(ms.drop_last()), ms.last())
    }
}

/// The greatest common divisor of `a > 0` and `b >= 0` is positive and
/// divides both.
pub proof fn lemma_gcd_divides(a: int, b: int)
    requires
        0 < a,
        0 <= b,
    ensures
        0 < gcd(a, b),
        a % gcd(a, b) == 0,
        b % gcd(a, b) == 0,
    decreases b,
{
    if b == 0 {
        lemma_mod_self_0(a);
        lemma_small_mod(0, a as nat);
    } else {
        lemma_mod_bound(a, b);
        lemma_gcd_divides(b, a % b);
        let g = gcd(b, a % b);
        lemma_fundamental_div_mod(a, b);
        lemma_fundamental_div_mod(b, g);
        lemma_fundamental_div_mod(a % b, g);
        let k1 = b / g;
        let k2 = (a % b) / g;
        assert(a == g * (k1 * (a / b) + k2)) by (nonlinear_arith)
            requires
                a == b * (a / b) + a % b,
                b == g * k1 + 0,
                a % b == g * k2 + 0,
        ;
        lemma_mod_multiples_basic(k1 * (a / b) + k2, g);
        lemma_mul_is_commutative(g, k1 * (a / b) + k2);
    }
}

/// The least common multiple of positive integers is a positive multiple of both.
pub proof fn lemma_lcm_multiple(a: int, b: int)
    requires
        0 < a,
        0 < b,
    ensures
        0 < lcm(a, b),
        lcm(a, b) % a == 0,
        lcm(a, b) % b == 0,
{
    lemma_gcd_divides(a, b);
    let g = gcd(a, b);
    lemma_fundamental_div_mod(a, g);
    lemma_fundamental_div_mod(b, g);
    let j = a / g;
    let k = b / g;
    assert(0 < k) by (nonlinear_arith)
        requires
            b == g * k + 0,
            0 < b,
            0 < g,
    ;
    assert(lcm(a, b) == j * b) by (nonlinear_arith)
        requires
            a == g * j + 0,
            b == g * k + 0,
            lcm(a, b) == a * k,
    ;
    assert(0 < a * k) by (nonlinear_arith)
        requires
            0 < a,
            0 < k,
    ;
    lemma_mod_multiples_basic(k, a);
    lemma_mul_is_commutative(k, a);
    lemma_mod_multiples_basic(j, b);
}

/// The running least common multiple is a positive multiple of every value.
pub proof fn lemma_lcm_all(ms: Seq<int>)
    requires
        forall|i: int| 0 <= i < ms.len() ==> 0 < #[trigger] ms[i],
    ensures
        0 < lcm_all(ms),
        forall|i: int| 0 <= i < ms.len() ==> lcm_all(ms) % #[trigger] ms[i] == 0,
    decreases ms.len(),
{
    if ms.len() > 0 {
        let w = ms.drop_last();
        lemma_lcm_all(w);
        let l = lcm_all(w);
        lemma_lcm_multiple(l, ms.last());
        assert forall|i: int| 0 <= i < ms.len() implies lcm_all(ms) % #[trigger] ms[i] == 0 by {
            if i < ms.len() - 1 {
                assert(w[i] == ms[i]);
                lemma_divides_transitive(ms[i], l, lcm_all(ms));
            }
        }
    }
}

/// Divisibility is transitive.
pub proof fn lemma_divides_transitive(a: int, b: int, c: int)
    requires
        0 < a,
        0 < b,
        b % a == 0,
        c % b == 0,
    ensures
        c % a == 0,
{
    lemma_fundamental_div_mod(b, a);
    lemma_fundamental_div_mod(c, b);
    let x = b / a;
    let y = c / b;
    assert(c == a * (x * y)) by (nonlinear_arith)
        requires
            b == a * x + 0,
            c == b * y + 0,
    ;
    lemma_mod_multiples_basic(x * y, a);
    lemma_mul_is_commutative(x * y, a);
}

// ------------------------------------------------------------------
// Arithmetic helpers
// ------------------------------------------------------------------

/// Euclidean division: the floored quotient and the remainder in `[0, m)`.
pub fn div_rem_euclid(a: i64, m: i64) -> (res: (i64, i64))
    requires
        0 < m,
        -0x4000_0000_0000_0000 <= a <= 0x4000_0000_0000_0000,
    ensures
        res.0 as int == a as int / m as int,
        res.1 as int == a as int % m as int,
{
    if a >= 0 {
        let q = ((a as u64) / (m as u64)) as i64;
        let r = ((a as u64) % (m as u64)) as i64;
        proof {
            lemma_fundamental_div_mod(a as int, m as int);
        }
        (q, r)
    } else {
        let x: u64 = (-a) as u64;
        let mu: u64 = m as u64;
        let p = x % mu;
        let k = x / mu;
        proof {
            lemma_fundamental_div_mod(x as int, mu as int);
            lemma_div_pos_is_pos(x as int, mu as int);
            assert(k * mu <= x) by (nonlinear_arith)
                requires
                    x == mu * k + p,
                    0 <= p,
            ;
        }
        let k = k as i64;
        if p == 0 {
            proof {
                assert(a as int == (-k) * m + 0) by (nonlinear_arith)
                    requires
                        x == mu * k + p,
                        p == 0,
                        a == -x,
                        mu == m,
                ;
                lemma_fundamental_div_mod_converse(a as int, m as int, -k as int, 0);
            }
            (-k, 0)
        } else {
            let r = m - p as i64;
            proof {
                assert(a as int == (-k - 1) * m + r) by (nonlinear_arith)
                    requires
                        x == mu * k + p,
                        a == -x,
                        mu == m,
                        r == m - p,
                ;
                lemma_fundamental_div_mod_converse(a as int, m as int, -k - 1, r as int);
            }
            (-k - 1, r)
        }
    }
}

} // verus!
