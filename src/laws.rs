//! The laws of the sequence algebra, each stated over the models that the
//! operations' contracts use, and proved.
use crate::algebra::{
    aperiodic_block, ascending, harmonic_at, rotated_pattern, ascending_residues, block_size, count_below, diffs,
    lemma_count_below, lemma_least_tile, lemma_least_tile_is, lemma_scale_shape,
    lemma_sum_diffs, lemma_tiles_whole, reduce, repeat_seq, residue_shape, residues,
    rotate_left, running_sums, shift, stamp_cyclic, stamp_key, transposed_set, stamp_linear, stretch_seq, sum, tiles,
};
use vstd::arithmetic::div_mod::*;
use vstd::arithmetic::mul::*;
use vstd::prelude::*;

verus! {

/// Stamping the shape of a non-empty list onto its first value gives the
/// list back (the linear round trip of shape and stamp).
pub proof fn lemma_linear_round_trip(s: Seq<int>)
    requires
        s.len() > 0,
    ensures
        stamp_linear(diffs(s), s[0]) == s,
{
    let r = stamp_linear(diffs(s), s[0]);
    assert forall|i: int| 0 <= i < s.len() implies #[trigger] r[i] == s[i] by {
        let p = s.take(i + 1);
        assert(diffs(s).take(i) =~= diffs(p));
        lemma_sum_diffs(p);
    }
    assert(r =~= s);
}

/// Stamping the cyclic shape of a non-empty residue set (strictly ascending,
/// modulo `m`) onto its smallest residue gives the set back (the cyclic
/// round trip of shape and stamp).
pub proof fn lemma_cyclic_round_trip(c: Seq<int>, m: int)
    requires
        0 < m,
        c.len() > 0,
        residues(c, m),
        ascending(c),
    ensures
        stamp_cyclic(residue_shape(c, m), c[0]) == c,
{
    let n = c.len() as int;
    let d = residue_shape(c, m);
    lemma_scale_shape(c, m);
    lemma_linear_round_trip(c);
    assert(stamp_linear(d.drop_last(), c[0]) == c);
    lemma_count_below(c, m);
    if count_below(c, m) < n {
        let k = count_below(c, m) as int;
        assert(c[k] >= m);
    }
    assert(reduce(c, m) =~= c) by {
        assert forall|i: int| 0 <= i < n implies #[trigger] reduce(c, m)[i] == c[i] by {
            lemma_small_mod(c[i] as nat, m as nat);
        }
    }
    lemma_mod_self_0(n);
    assert(rotate_left(c, n) =~= c);
    assert(ascending_residues(c, m) == c);
}

/// Stamping the shape of a harmonic pattern (with its leading zero) back
/// into running sums gives the pattern back.
pub proof fn lemma_pattern_round_trip(h: Seq<int>)
    ensures
        running_sums(diffs(seq![0int] + h)) == h,
{
    let full = seq![0int] + h;
    let d = diffs(full);
    lemma_linear_round_trip(full);
    assert forall|i: int| 0 <= i < h.len() implies #[trigger] running_sums(d)[i] == h[i] by {
        assert(stamp_linear(d, 0)[i + 1] == full[i + 1]);
    }
    assert(running_sums(d) =~= h);
}

/// Stamping the cyclic shape of a key onto its root gives the key back.
pub proof fn lemma_key_round_trip(k: Seq<int>, m: int)
    requires
        0 < m,
        k.len() > 0,
        residues(k, m),
        sum(residue_shape(k, m)) == m,
    ensures
        stamp_key(residue_shape(k, m), k[0]) == k,
{
    let n = k.len() as int;
    let d = residue_shape(k, m);
    let v = stamp_linear(d.drop_last(), k[0]);
    assert forall|i: int| 0 <= i < n implies #[trigger] stamp_key(d, k[0])[i] == k[i] by {
        lemma_key_prefix(k, m, i);
    }
    assert(stamp_key(d, k[0]) =~= k);
}

/// The running sums of a key's shape from its root reach each of its residues.
proof fn lemma_key_prefix(k: Seq<int>, m: int, i: int)
    requires
        0 < m,
        k.len() > 0,
        residues(k, m),
        0 <= i < k.len(),
    ensures
        (k[0] + sum(residue_shape(k, m).drop_last().take(i))) % m == k[i],
    decreases i,
{
    let n = k.len() as int;
    let d = residue_shape(k, m);
    let dl = d.drop_last();
    if i == 0 {
        assert(dl.take(0) =~= Seq::<int>::empty());
        lemma_small_mod(k[0] as nat, m as nat);
    } else {
        lemma_key_prefix(k, m, i - 1);
        assert(dl.take(i).drop_last() =~= dl.take(i - 1));
        lemma_small_mod(i as nat, n as nat);
        assert(dl[i - 1] == (k[i] - k[i - 1]) % m);
        let before = k[0] + sum(dl.take(i - 1));
        let step = dl[i - 1];
        assert(before + step == k[0] + sum(dl.take(i)));
        lemma_mod_twice(k[i] - k[i - 1], m);
        assert(step % m == step);
        lemma_add_mod_noop(before, step, m);
        assert((before + step) % m == (k[i - 1] + step) % m);
        lemma_small_mod(k[i - 1] as nat, m as nat);
        lemma_add_mod_noop(k[i - 1], k[i] - k[i - 1], m);
        lemma_small_mod(k[i] as nat, m as nat);
        assert((k[i - 1] + step) % m == k[i]);
    }
}

/// Seen from index `a`, every harmonic of a map is an old harmonic less the
/// harmonic at `a`, modulo the period (the period itself standing for zero).
pub proof fn lemma_rotation_subtracts_pivot(h: Seq<int>, t: int, a: int, j: int)
    requires
        h.len() > 0,
        0 < h.last(),
        0 <= j < h.len(),
    ensures
        rotated_pattern(h, t, a)[j] % h.last() == (harmonic_at(h, (a + j + 1) % (h.len() as int))
            - harmonic_at(h, a % (h.len() as int))) % h.last(),
{
    let l = h.len() as int;
    let m = h.last();
    let q = (a + j + 1) / l - a / l;
    let b = harmonic_at(h, (a + j + 1) % l) - harmonic_at(h, a % l);
    assert(rotated_pattern(h, t, a)[j] == ((a + j + 1) / l) * m - (a / l) * m + b);
    lemma_mul_is_distributive_sub_other_way(m, (a + j + 1) / l, a / l);
    lemma_mul_is_commutative(q, m);
    lemma_mod_multiples_vanish(q, b, m);
}

/// Taking the prime form twice gives the prime form: the minimal block is
/// itself aperiodic.
pub proof fn lemma_prime_idempotent<A>(s: Seq<A>)
    ensures
        aperiodic_block(aperiodic_block(s)) == aperiodic_block(s),
{
    if s.len() > 0 {
        let n = s.len() as int;
        let e = block_size(s);
        lemma_least_tile(s, 1);
        let b = s.take(e);
        assert forall|k: int| 1 <= k < e implies !tiles(b, k) by {
            if tiles(b, k) {
                lemma_fundamental_div_mod(e, k);
                let c = e / k;
                assert(e == k * c);
                lemma_fundamental_div_mod(n, e);
                let a = n / e;
                assert(n == k * (c * a)) by (nonlinear_arith)
                    requires
                        n == e * a + 0,
                        e == k * c,
                ;
                assert(c > 0) by (nonlinear_arith)
                    requires
                        e == k * c,
                        e > 0,
                        k > 0,
                ;
                lemma_mod_multiples_basic(c * a, k);
                lemma_mul_is_commutative(c * a, k);
                assert forall|i: int| 0 <= i < n implies #[trigger] s[i] == s[i % k] by {
                    lemma_mod_mod(i, k, c);
                    lemma_mod_bound(i, e);
                    lemma_mod_bound(i, k);
                    assert(s[i] == s[i % e]);
                    assert(b[i % e] == b[(i % e) % k]);
                }
                assert(tiles(s, k));
            }
        }
        lemma_tiles_whole(b);
        lemma_least_tile_is(b, 1, e);
        assert(b.take(e) =~= b);
    }
}

/// Repeating a list `n` times gives `n` times its length, and so does
/// stretching it.
pub proof fn lemma_repeat_length<A>(s: Seq<A>, n: nat)
    ensures
        repeat_seq(s, n).len() == s.len() * n,
        stretch_seq(s, n).len() == s.len() * n,
{
}

/// Transposing by `a` and then by `b` is transposing by `a + b`.
pub proof fn lemma_transpose_twice(s: Seq<int>, a: int, b: int)
    ensures
        shift(shift(s, a), b) == shift(s, a + b),
{
    assert(shift(shift(s, a), b) =~= shift(s, a + b));
}

/// Transposing residues by `a` and then by `b`, reducing modulo `m` each
/// time, is transposing them by `a + b`.
pub proof fn lemma_transpose_residues_twice(s: Seq<int>, a: int, b: int, m: int)
    requires
        0 < m,
    ensures
        reduce(shift(reduce(shift(s, a), m), b), m) == reduce(shift(s, a + b), m),
{
    assert forall|i: int| 0 <= i < s.len() implies #[trigger] reduce(
        shift(reduce(shift(s, a), m), b),
        m,
    )[i] == reduce(shift(s, a + b), m)[i] by {
        lemma_add_mod_noop_right(b, s[i] + a, m);
        assert(reduce(shift(reduce(shift(s, a), m), b), m)[i] == ((s[i] + a) % m + b) % m);
        assert(reduce(shift(s, a + b), m)[i] == (s[i] + (a + b)) % m);
        assert(b + (s[i] + a) == s[i] + (a + b));
    }
    assert(reduce(shift(reduce(shift(s, a), m), b), m) =~= reduce(shift(s, a + b), m));
}

/// Two strictly ascending lists with the same elements are equal.
pub proof fn lemma_ascending_same_elements(x: Seq<int>, y: Seq<int>)
    requires
        ascending(x),
        ascending(y),
        forall|v: int| x.contains(v) <==> y.contains(v),
    ensures
        x == y,
    decreases x.len(),
{
    if x.len() == 0 {
        if y.len() > 0 {
            assert(y.contains(y[0]));
        }
        assert(x =~= y);
    } else if y.len() == 0 {
        assert(x.contains(x[0]));
    } else {
        assert(x.contains(x[0]));
        assert(y.contains(y[0]));
        let j = choose|j: int| 0 <= j < y.len() && y[j] == x[0];
        let k = choose|k: int| 0 <= k < x.len() && x[k] == y[0];
        if k > 0 {
            assert(x[0] < x[k]);
        }
        if j > 0 {
            assert(y[0] < y[j]);
        }
        assert(x[0] == y[0]);
        let x1 = x.drop_first();
        let y1 = y.drop_first();
        assert forall|v: int| x1.contains(v) <==> y1.contains(v) by {
            if x1.contains(v) {
                let a = choose|a: int| 0 <= a < x1.len() && x1[a] == v;
                assert(x[a + 1] == v);
                assert(x[0] < x[a + 1]);
                assert(x.contains(v));
                let b = choose|b: int| 0 <= b < y.len() && y[b] == v;
                assert(b != 0);
                assert(y1[b - 1] == v);
            }
            if y1.contains(v) {
                let a = choose|a: int| 0 <= a < y1.len() && y1[a] == v;
                assert(y[a + 1] == v);
                assert(y[0] < y[a + 1]);
                assert(y.contains(v));
                let b = choose|b: int| 0 <= b < x.len() && x[b] == v;
                assert(b != 0);
                assert(x1[b - 1] == v);
            }
        }
        lemma_ascending_same_elements(x1, y1);
        assert(x =~= seq![x[0]] + x1);
        assert(y =~= seq![y[0]] + y1);
    }
}

/// A rotation holds the same elements.
pub proof fn lemma_rotate_contains(s: Seq<int>, n: int, v: int)
    ensures
        rotate_left(s, n).contains(v) <==> s.contains(v),
{
    if s.len() > 0 {
        let k = n % (s.len() as int);
        lemma_mod_bound(n, s.len() as int);
        let r = rotate_left(s, n);
        assert(s =~= s.take(k) + s.skip(k));
        if s.contains(v) {
            let i = choose|i: int| 0 <= i < s.len() && s[i] == v;
            if i >= k {
                assert(r[i - k] == v);
            } else {
                assert(r[s.len() - k + i] == v);
            }
        }
        if r.contains(v) {
            let i = choose|i: int| 0 <= i < r.len() && r[i] == v;
            if i < s.len() - k {
                assert(s[i + k] == v);
            } else {
                assert(s[i - (s.len() - k)] == v);
            }
        }
    }
}

/// Transposed residue sets stay strictly ascending residue sets.
pub proof fn lemma_transposed_set(c: Seq<int>, t: int, m: int)
    requires
        0 < m,
        residues(c, m),
        ascending(c),
    ensures
        ascending(transposed_set(c, t, m)),
        residues(transposed_set(c, t, m), m),
        forall|v: int|
            transposed_set(c, t, m).contains(v) <==> exists|i: int|
                0 <= i < c.len() && v == #[trigger] ((c[i] + t) % m),
{
    let tt = t % m;
    let w = shift(c, tt);
    lemma_mod_bound(t, m);
    let n = c.len() as int;
    if n > 0 {
        assert(ascending(w)) by {
            assert forall|a: int, b: int| 0 <= a < b < w.len() implies w[a] < w[b] by {
                assert(c[a] < c[b]);
            }
        }
        assert(0 <= c[0] && c[n - 1] < m);
        if n > 1 {
            assert(c[0] < c[n - 1]);
        }
        crate::algebra::lemma_ascending_residues(w, m);
    } else {
        assert(transposed_set(c, t, m) =~= Seq::<int>::empty());
    }
    assert forall|v: int| transposed_set(c, t, m).contains(v) <==> exists|i: int|
        0 <= i < c.len() && v == #[trigger] ((c[i] + t) % m) by {
        lemma_rotate_contains(reduce(w, m), count_below(w, m) as int, v);
        if reduce(w, m).contains(v) {
            let i = choose|i: int| 0 <= i < reduce(w, m).len() && reduce(w, m)[i] == v;
            lemma_add_mod_noop_right(c[i], t, m);
            assert(v == (c[i] + t) % m);
        }
        if exists|i: int| 0 <= i < c.len() && v == #[trigger] ((c[i] + t) % m) {
            let i = choose|i: int| 0 <= i < c.len() && v == #[trigger] ((c[i] + t) % m);
            lemma_add_mod_noop_right(c[i], t, m);
            assert(reduce(w, m)[i] == v);
        }
    }
}

/// Transposing a residue set by `a` and then by `b` is transposing it by `a + b`.
pub proof fn lemma_transpose_set_twice(c: Seq<int>, a: int, b: int, m: int)
    requires
        0 < m,
        residues(c, m),
        ascending(c),
    ensures
        transposed_set(transposed_set(c, a, m), b, m) == transposed_set(c, a + b, m),
{
    let x = transposed_set(c, a, m);
    lemma_transposed_set(c, a, m);
    lemma_transposed_set(x, b, m);
    lemma_transposed_set(c, a + b, m);
    let lhs = transposed_set(x, b, m);
    let rhs = transposed_set(c, a + b, m);
    assert forall|v: int| lhs.contains(v) <==> rhs.contains(v) by {
        if lhs.contains(v) {
            lemma_twice_within(c, a, b, m, v);
        }
        if rhs.contains(v) {
            lemma_once_within(c, a, b, m, v);
        }
    }
    lemma_ascending_same_elements(lhs, rhs);
}

/// A residue of the twice-transposed set is one of the set transposed once by the sum.
proof fn lemma_twice_within(c: Seq<int>, a: int, b: int, m: int, v: int)
    requires
        0 < m,
        residues(c, m),
        ascending(c),
        transposed_set(transposed_set(c, a, m), b, m).contains(v),
    ensures
        transposed_set(c, a + b, m).contains(v),
{
    let x = transposed_set(c, a, m);
    lemma_transposed_set(c, a, m);
    lemma_transposed_set(x, b, m);
    lemma_transposed_set(c, a + b, m);
    let j = choose|j: int| 0 <= j < x.len() && v == #[trigger] ((x[j] + b) % m);
    assert(x.contains(x[j]));
    let i = choose|i: int| 0 <= i < c.len() && x[j] == #[trigger] ((c[i] + a) % m);
    lemma_add_mod_noop_right(b, c[i] + a, m);
    assert(v == (c[i] + (a + b)) % m);
}

/// A residue of the set transposed once by the sum is one of the twice-transposed set.
proof fn lemma_once_within(c: Seq<int>, a: int, b: int, m: int, v: int)
    requires
        0 < m,
        residues(c, m),
        ascending(c),
        transposed_set(c, a + b, m).contains(v),
    ensures
        transposed_set(transposed_set(c, a, m), b, m).contains(v),
{
    let x = transposed_set(c, a, m);
    lemma_transposed_set(c, a, m);
    lemma_transposed_set(x, b, m);
    lemma_transposed_set(c, a + b, m);
    let i = choose|i: int| 0 <= i < c.len() && v == #[trigger] ((c[i] + (a + b)) % m);
    let y = (c[i] + a) % m;
    assert(x.contains(y));
    let j = choose|j: int| 0 <= j < x.len() && x[j] == y;
    lemma_add_mod_noop_right(b, c[i] + a, m);
    assert(v == (x[j] + b) % m);
}

} // verus!
