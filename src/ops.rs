//! Executable list operations on 16-bit values, each proved equal to its
//! model in `algebra`.
use crate::algebra::{
    lemma_rotated_pattern_periodic, rotated_pattern, ascending, eval_all, eval_pattern, sorted, all_positive, count_below, lemma_prefix_sum_within_total, lemma_prefix_sums_nonneg, max_of, min_of, running_sums, diffs, div_rem_euclid, fits_i16, ints, reduce, ring_diffs, rotate_left, shift, stamp_linear,
    sum,
};
use vstd::arithmetic::div_mod::*;
use vstd::prelude::*;

verus! {

/// Differences between adjacent values.
pub fn linear_diffs(v: &Vec<i16>) -> (r: Vec<i16>)
    requires
        fits_i16(diffs(ints(v@))),
    ensures
        ints(r@) == diffs(ints(v@)),
{
    let mut out: Vec<i16> = Vec::new();
    if v.len() == 0 {
        proof {
            assert(ints(out@) =~= diffs(ints(v@)));
        }
        return out;
    }
    let mut i: usize = 1;
    while i < v.len()
        invariant
            1 <= i <= v@.len(),
            fits_i16(diffs(ints(v@))),
            out@.len() == i - 1,
            forall|k: int| 0 <= k < i - 1 ==> out@[k] as int == #[trigger] diffs(ints(v@))[k],
        decreases v@.len() - i,
    {
        proof {
            assert(diffs(ints(v@))[i - 1] == v@[i as int] - v@[i - 1]);
        }
        out.push(v[i] - v[i - 1]);
        i += 1;
    }
    proof {
        assert(ints(out@) =~= diffs(ints(v@)));
    }
    out
}

/// Differences between adjacent values, reduced modulo `m`.
pub fn reduced_diffs(v: &Vec<i16>, m: i16) -> (r: Vec<i16>)
    requires
        0 < m,
    ensures
        ints(r@) == reduce(diffs(ints(v@)), m as int),
{
    let mut out: Vec<i16> = Vec::new();
    if v.len() == 0 {
        proof {
            assert(ints(out@) =~= reduce(diffs(ints(v@)), m as int));
        }
        return out;
    }
    let mut i: usize = 1;
    while i < v.len()
        invariant
            1 <= i <= v@.len(),
            0 < m,
            out@.len() == i - 1,
            forall|k: int|
                0 <= k < i - 1 ==> out@[k] as int == #[trigger] reduce(diffs(ints(v@)), m as int)[k],
        decreases v@.len() - i,
    {
        let x = rem_euclid_i32(v[i] as i32 - v[i - 1] as i32, m as i32);
        out.push(x as i16);
        i += 1;
    }
    proof {
        assert(ints(out@) =~= reduce(diffs(ints(v@)), m as int));
    }
    out
}

/// Euclidean remainder of a 32-bit value by a positive modulus.
pub fn rem_euclid_i32(a: i32, m: i32) -> (r: i32)
    requires
        0 < m,
    ensures
        r as int == a as int % m as int,
        0 <= r < m,
{
    let (_, r) = div_rem_euclid(a as i64, m as i64);
    proof {
        lemma_mod_bound(a as int, m as int);
    }
    r as i32
}

/// Cyclic differences: each value's step to the next, the last stepping back to the first.
pub fn cyclic_diffs(v: &Vec<i16>) -> (r: Vec<i16>)
    requires
        fits_i16(ring_diffs(ints(v@))),
    ensures
        ints(r@) == ring_diffs(ints(v@)),
{
    let n = v.len();
    let mut out: Vec<i16> = Vec::new();
    let mut i: usize = 0;
    while i < n
        invariant
            i <= n,
            n == v@.len(),
            fits_i16(ring_diffs(ints(v@))),
            out@.len() == i,
            forall|k: int| 0 <= k < i ==> out@[k] as int == #[trigger] ring_diffs(ints(v@))[k],
        decreases n - i,
    {
        let next = if i + 1 == n {
            0
        } else {
            i + 1
        };
        proof {
            if i + 1 == n {
                lemma_mod_self_0(n as int);
            } else {
                lemma_small_mod((i + 1) as nat, n as nat);
            }
            assert(ring_diffs(ints(v@))[i as int] == v@[next as int] - v@[i as int]);
        }
        out.push(v[next] - v[i]);
        i += 1;
    }
    proof {
        assert(ints(out@) =~= ring_diffs(ints(v@)));
    }
    out
}

/// Cyclic differences reduced modulo `m`.
pub fn reduced_cyclic_diffs(v: &Vec<i16>, m: i16) -> (r: Vec<i16>)
    requires
        0 < m,
    ensures
        ints(r@) == reduce(ring_diffs(ints(v@)), m as int),
{
    let n = v.len();
    let mut out: Vec<i16> = Vec::new();
    let mut i: usize = 0;
    while i < n
        invariant
            i <= n,
            0 < m,
            n == v@.len(),
            out@.len() == i,
            forall|k: int|
                0 <= k < i ==> out@[k] as int == #[trigger] reduce(ring_diffs(ints(v@)), m as int)[k],
        decreases n - i,
    {
        let next = if i + 1 == n {
            0
        } else {
            i + 1
        };
        proof {
            if i + 1 == n {
                lemma_mod_self_0(n as int);
            } else {
                lemma_small_mod((i + 1) as nat, n as nat);
            }
        }
        let x = rem_euclid_i32(v[next] as i32 - v[i] as i32, m as i32);
        out.push(x as i16);
        i += 1;
    }
    proof {
        assert(ints(out@) =~= reduce(ring_diffs(ints(v@)), m as int));
    }
    out
}

/// Running sums of `d` from `start`, the first `count` steps of `d` only.
pub fn running_stamp(d: &Vec<i16>, count: usize, start: i16) -> (r: Vec<i16>)
    requires
        count <= d@.len(),
        fits_i16(stamp_linear(ints(d@).take(count as int), start as int)),
    ensures
        ints(r@) == stamp_linear(ints(d@).take(count as int), start as int),
{
    let ghost s = ints(d@).take(count as int);
    let mut out: Vec<i16> = Vec::new();
    out.push(start);
    let mut acc: i16 = start;
    let mut i: usize = 0;
    proof {
        assert(s.take(0) =~= Seq::<int>::empty());
    }
    while i < count
        invariant
            i <= count <= d@.len(),
            s == ints(d@).take(count as int),
            fits_i16(stamp_linear(s, start as int)),
            out@.len() == i + 1,
            acc as int == start + sum(s.take(i as int)),
            forall|k: int| 0 <= k <= i ==> out@[k] as int == #[trigger] stamp_linear(s, start as int)[k],
        decreases count - i,
    {
        proof {
            assert(s.take(i as int + 1).drop_last() =~= s.take(i as int));
            assert(stamp_linear(s, start as int)[i + 1] == start + sum(s.take(i as int + 1)));
        }
        acc = acc + d[i];
        out.push(acc);
        i += 1;
    }
    proof {
        assert(ints(out@) =~= stamp_linear(s, start as int));
    }
    out
}

/// Running sums of the first `count` steps of `d` from `start`, each reduced modulo `m`.
pub fn reduced_stamp(d: &Vec<i16>, count: usize, start: i16, m: i16) -> (r: Vec<i16>)
    requires
        count <= d@.len(),
        0 < m,
    ensures
        ints(r@) == reduce(stamp_linear(ints(d@).take(count as int), start as int), m as int),
{
    let ghost s = ints(d@).take(count as int);
    let ghost target = reduce(stamp_linear(s, start as int), m as int);
    let mut out: Vec<i16> = Vec::new();
    let mut acc: i16 = rem_euclid_i16(start, m);
    out.push(acc);
    let mut i: usize = 0;
    proof {
        assert(s.take(0) =~= Seq::<int>::empty());
    }
    while i < count
        invariant
            i <= count <= d@.len(),
            0 < m,
            s == ints(d@).take(count as int),
            target == reduce(stamp_linear(s, start as int), m as int),
            out@.len() == i + 1,
            acc as int == (start + sum(s.take(i as int))) % (m as int),
            forall|k: int| 0 <= k <= i ==> out@[k] as int == #[trigger] target[k],
        decreases count - i,
    {
        let ghost prev = start + sum(s.take(i as int));
        proof {
            assert(s.take(i as int + 1).drop_last() =~= s.take(i as int));
            assert(s[i as int] == d@[i as int]);
            assert(target[i + 1] == (prev + d@[i as int]) % (m as int));
            lemma_add_mod_noop_right(d@[i as int] as int, prev, m as int);
        }
        acc = rem_euclid_i32(acc as i32 + d[i] as i32, m as i32) as i16;
        out.push(acc);
        i += 1;
    }
    proof {
        assert(ints(out@) =~= target);
    }
    out
}

/// Euclidean remainder of a 16-bit value by a positive modulus.
pub fn rem_euclid_i16(a: i16, m: i16) -> (r: i16)
    requires
        0 < m,
    ensures
        r as int == a as int % m as int,
        0 <= r < m,
{
    rem_euclid_i32(a as i32, m as i32) as i16
}

/// Every value shifted by `t`.
pub fn shifted(v: &Vec<i16>, t: i16) -> (r: Vec<i16>)
    requires
        fits_i16(shift(ints(v@), t as int)),
    ensures
        ints(r@) == shift(ints(v@), t as int),
{
    let mut out: Vec<i16> = Vec::new();
    let mut i: usize = 0;
    while i < v.len()
        invariant
            i <= v@.len(),
            fits_i16(shift(ints(v@), t as int)),
            out@.len() == i,
            forall|k: int| 0 <= k < i ==> out@[k] as int == #[trigger] shift(ints(v@), t as int)[k],
        decreases v@.len() - i,
    {
        proof {
            assert(shift(ints(v@), t as int)[i as int] == v@[i as int] + t);
        }
        out.push(v[i] + t);
        i += 1;
    }
    proof {
        assert(ints(out@) =~= shift(ints(v@), t as int));
    }
    out
}

/// Every value shifted by `t` and reduced modulo `m`.
pub fn shifted_reduced(v: &Vec<i16>, t: i16, m: i16) -> (r: Vec<i16>)
    requires
        0 < m,
    ensures
        ints(r@) == reduce(shift(ints(v@), t as int), m as int),
{
    let mut out: Vec<i16> = Vec::new();
    let mut i: usize = 0;
    while i < v.len()
        invariant
            i <= v@.len(),
            0 < m,
            out@.len() == i,
            forall|k: int|
                0 <= k < i ==> out@[k] as int == #[trigger] reduce(shift(ints(v@), t as int), m as int)[k],
        decreases v@.len() - i,
    {
        let x = rem_euclid_i32(v[i] as i32 + t as i32, m as i32);
        out.push(x as i16);
        i += 1;
    }
    proof {
        assert(ints(out@) =~= reduce(shift(ints(v@), t as int), m as int));
    }
    out
}

/// The sum of all values, when it fits in `i16`.
pub fn sum_of(v: &Vec<i16>) -> (r: i16)
    requires
        i16::MIN <= sum(ints(v@)) <= i16::MAX,
    ensures
        r as int == sum(ints(v@)),
{
    let mut acc: i128 = 0;
    let mut i: usize = 0;
    proof {
        assert(ints(v@).take(0) =~= Seq::<int>::empty());
    }
    while i < v.len()
        invariant
            i <= v@.len(),
            acc as int == sum(ints(v@).take(i as int)),
            -0x8000 * i <= acc <= 0x7fff * i,
        decreases v@.len() - i,
    {
        proof {
            assert(ints(v@).take(i as int + 1).drop_last() =~= ints(v@).take(i as int));
        }
        acc = acc + v[i] as i128;
        i += 1;
    }
    proof {
        assert(ints(v@).take(v@.len() as int) =~= ints(v@));
    }
    acc as i16
}

/// The largest and the smallest value of a non-empty list.
pub fn max_min(v: &Vec<i16>) -> (r: (i16, i16))
    requires
        v@.len() > 0,
    ensures
        r.0 as int == max_of(ints(v@)),
        r.1 as int == min_of(ints(v@)),
{
    let mut hi = v[0];
    let mut lo = v[0];
    let mut i: usize = 1;
    proof {
        assert(ints(v@).take(1) =~= seq![v@[0] as int]);
    }
    while i < v.len()
        invariant
            1 <= i <= v@.len(),
            hi as int == max_of(ints(v@).take(i as int)),
            lo as int == min_of(ints(v@).take(i as int)),
        decreases v@.len() - i,
    {
        proof {
            assert(ints(v@).take(i as int + 1).drop_last() =~= ints(v@).take(i as int));
        }
        if v[i] > hi {
            hi = v[i];
        }
        if v[i] < lo {
            lo = v[i];
        }
        i += 1;
    }
    proof {
        assert(ints(v@).take(v@.len() as int) =~= ints(v@));
    }
    (hi, lo)
}

/// The sum of all values reduced modulo `m`.
pub fn sum_mod(v: &Vec<i16>, m: i16) -> (r: i16)
    requires
        0 < m,
    ensures
        r as int == sum(ints(v@)) % (m as int),
{
    let mut acc: i16 = 0;
    let mut i: usize = 0;
    proof {
        assert(ints(v@).take(0) =~= Seq::<int>::empty());
        lemma_small_mod(0, m as nat);
    }
    while i < v.len()
        invariant
            i <= v@.len(),
            0 < m,
            0 <= acc < m,
            acc as int == sum(ints(v@).take(i as int)) % (m as int),
        decreases v@.len() - i,
    {
        let ghost prev = sum(ints(v@).take(i as int));
        proof {
            assert(ints(v@).take(i as int + 1).drop_last() =~= ints(v@).take(i as int));
            lemma_add_mod_noop_right(v@[i as int] as int, prev, m as int);
        }
        acc = rem_euclid_i32(acc as i32 + v[i] as i32, m as i32) as i16;
        i += 1;
    }
    proof {
        assert(ints(v@).take(v@.len() as int) =~= ints(v@));
    }
    acc
}

/// Differences of a harmonic pattern taken with its implicit leading zero:
/// the first harmonic, then the steps between adjacent harmonics.
pub fn pattern_diffs(h: &Vec<i16>) -> (r: Vec<i16>)
    requires
        h@.len() > 0,
        fits_i16(diffs(seq![0int] + ints(h@))),
    ensures
        ints(r@) == diffs(seq![0int] + ints(h@)),
{
    let ghost full = seq![0int] + ints(h@);
    let mut out: Vec<i16> = Vec::new();
    proof {
        assert(diffs(full)[0] == h@[0]);
    }
    out.push(h[0]);
    let mut i: usize = 1;
    while i < h.len()
        invariant
            1 <= i <= h@.len(),
            full == seq![0int] + ints(h@),
            fits_i16(diffs(full)),
            out@.len() == i,
            forall|k: int| 0 <= k < i ==> out@[k] as int == #[trigger] diffs(full)[k],
        decreases h@.len() - i,
    {
        proof {
            assert(diffs(full)[i as int] == h@[i as int] - h@[i - 1]);
        }
        out.push(h[i] - h[i - 1]);
        i += 1;
    }
    proof {
        assert(ints(out@) =~= diffs(full));
    }
    out
}

/// Running sums of `d` without the starting zero.
pub fn running_sums_of(d: &Vec<i16>) -> (r: Vec<i16>)
    requires
        fits_i16(running_sums(ints(d@))),
    ensures
        ints(r@) == running_sums(ints(d@)),
{
    let ghost s = ints(d@);
    let mut out: Vec<i16> = Vec::new();
    let mut acc: i16 = 0;
    let mut i: usize = 0;
    proof {
        assert(s.take(0) =~= Seq::<int>::empty());
    }
    while i < d.len()
        invariant
            i <= d@.len(),
            s == ints(d@),
            fits_i16(running_sums(s)),
            out@.len() == i,
            acc as int == sum(s.take(i as int)),
            forall|k: int| 0 <= k < i ==> out@[k] as int == #[trigger] running_sums(s)[k],
        decreases d@.len() - i,
    {
        proof {
            assert(s.take(i as int + 1).drop_last() =~= s.take(i as int));
            assert(running_sums(s)[i as int] == sum(s.take(i as int + 1)));
        }
        acc = acc + d[i];
        out.push(acc);
        i += 1;
    }
    proof {
        assert(ints(out@) =~= running_sums(s));
    }
    out
}

/// How many of the running sums from `start` of the first `count` steps of
/// `d` (positive steps with a small total) lie below `m`.
pub fn stamp_count_below(d: &Vec<i16>, count: usize, start: i16, m: i16) -> (r: usize)
    requires
        count < d@.len(),
        all_positive(ints(d@)),
        sum(ints(d@)) <= i16::MAX,
        0 <= start,
    ensures
        r as nat == count_below(stamp_linear(ints(d@).take(count as int), start as int), m as int),
        r <= count + 1,
{
    let ghost s = ints(d@).take(count as int);
    let ghost v = stamp_linear(s, start as int);
    let n = d.len();
    let mut acc: i32 = start as i32;
    let mut c: usize = 0;
    let mut i: usize = 0;
    proof {
        assert(s.take(0) =~= Seq::<int>::empty());
        assert(v.take(0) =~= Seq::<int>::empty());
    }
    while i <= count
        invariant
            i <= count + 1,
            count < n,
            n == d@.len(),
            all_positive(ints(d@)),
            sum(ints(d@)) <= i16::MAX,
            0 <= start,
            s == ints(d@).take(count as int),
            v == stamp_linear(s, start as int),
            i <= count ==> acc as int == start + sum(s.take(i as int)),
            c as nat == count_below(v.take(i as int), m as int),
            c <= i,
        decreases count + 1 - i,
    {
        proof {
            assert(v.take(i as int + 1).drop_last() =~= v.take(i as int));
            assert(v[i as int] == start + sum(s.take(i as int)));
        }
        if (acc as i64) < (m as i64) {
            c += 1;
        }
        if i < count {
            proof {
                assert(s.take(i as int + 1).drop_last() =~= s.take(i as int));
                assert(s.take(i as int + 1) =~= ints(d@).take(i as int + 1));
                lemma_prefix_sum_within_total(ints(d@), i as int + 1);
                lemma_prefix_sums_nonneg(ints(d@), i as int + 1);
            }
            acc = acc + d[i] as i32;
        }
        i += 1;
    }
    proof {
        assert(v.take(count as int + 1) =~= v);
    }
    c
}

/// Reports whether two lists hold the same values in the same order.
pub fn same_values(a: &Vec<i16>, b: &Vec<i16>) -> (r: bool)
    ensures
        r == (a@ == b@),
{
    if a.len() != b.len() {
        return false;
    }
    let mut i: usize = 0;
    while i < a.len()
        invariant
            i <= a@.len(),
            a@.len() == b@.len(),
            forall|k: int| 0 <= k < i ==> a@[k] == b@[k],
        decreases a@.len() - i,
    {
        if a[i] != b[i] {
            return false;
        }
        i += 1;
    }
    proof {
        assert(a@ =~= b@);
    }
    true
}

/// Floored quotient and remainder of a 16-bit index by a positive length.
pub fn index_div_rem(i: i16, len: usize) -> (r: (i64, usize))
    requires
        0 < len,
    ensures
        r.0 as int == i as int / len as int,
        r.1 as int == i as int % len as int,
        r.1 < len,
        -0x8000 <= r.0 <= 0x8000,
{
    proof {
        lemma_mod_bound(i as int, len as int);
    }
    if len <= 0x10000 {
        let (q, rem) = div_rem_euclid(i as i64, len as i64);
        proof {
            if i >= 0 {
                lemma_div_pos_is_pos(i as int, len as int);
                lemma_div_is_ordered_by_denominator(i as int, 1, len as int);
            } else {
                lemma_fundamental_div_mod(i as int, len as int);
                assert(q >= -0x8000) by (nonlinear_arith)
                    requires
                        i == len * q + rem,
                        0 <= rem < len,
                        len >= 1,
                        i >= -0x8000,
                ;
                assert(q <= 0) by (nonlinear_arith)
                    requires
                        i == len * q + rem,
                        0 <= rem < len,
                        len >= 1,
                        i < 0,
                ;
            }
        }
        (q, rem as usize)
    } else if i >= 0 {
        proof {
            lemma_fundamental_div_mod_converse(i as int, len as int, 0, i as int);
        }
        (0, i as usize)
    } else {
        let rem = len - ((-(i as i32)) as usize);
        proof {
            lemma_fundamental_div_mod_converse(i as int, len as int, -1, rem as int);
        }
        (-1, rem)
    }
}

/// The quasi-periodic function of a harmonic pattern, evaluated at `i`.
pub fn eval_pattern_at(h: &Vec<i16>, t: i16, i: i16) -> (r: i16)
    requires
        h@.len() > 0,
        i16::MIN <= eval_pattern(ints(h@), t as int, i as int) <= i16::MAX,
    ensures
        r as int == eval_pattern(ints(h@), t as int, i as int),
{
    let len = h.len();
    let (q, rem) = index_div_rem(i, len);
    let m = h[len - 1] as i64;
    let base: i64 = if rem == 0 {
        0
    } else {
        h[rem - 1] as i64
    };
    proof {
        assert(-0x8000 * 0x8000 <= q * m <= 0x8000 * 0x8000) by (nonlinear_arith)
            requires
                -0x8000 <= q <= 0x8000,
                -0x8000 <= m <= 0x7fff,
        ;
    }
    (q * m + base + t as i64) as i16
}

/// The quasi-periodic function of a harmonic pattern applied to every index.
pub fn eval_each(h: &Vec<i16>, t: i16, v: &Vec<i16>) -> (r: Vec<i16>)
    requires
        h@.len() > 0,
        fits_i16(eval_all(ints(h@), t as int, ints(v@))),
    ensures
        ints(r@) == eval_all(ints(h@), t as int, ints(v@)),
{
    let mut out: Vec<i16> = Vec::new();
    let mut i: usize = 0;
    while i < v.len()
        invariant
            i <= v@.len(),
            h@.len() > 0,
            fits_i16(eval_all(ints(h@), t as int, ints(v@))),
            out@.len() == i,
            forall|k: int|
                0 <= k < i ==> out@[k] as int == #[trigger] eval_all(ints(h@), t as int, ints(v@))[k],
        decreases v@.len() - i,
    {
        proof {
            assert(eval_all(ints(h@), t as int, ints(v@))[i as int] == eval_pattern(ints(h@), t as int, v@[i as int] as int));
        }
        let x = eval_pattern_at(h, t, v[i]);
        out.push(x);
        i += 1;
    }
    proof {
        assert(ints(out@) =~= eval_all(ints(h@), t as int, ints(v@)));
    }
    out
}

/// Every value reduced modulo `m`.
pub fn reduced(v: &Vec<i16>, m: i16) -> (r: Vec<i16>)
    requires
        0 < m,
    ensures
        ints(r@) == reduce(ints(v@), m as int),
{
    let mut out: Vec<i16> = Vec::new();
    let mut i: usize = 0;
    while i < v.len()
        invariant
            i <= v@.len(),
            0 < m,
            out@.len() == i,
            forall|k: int| 0 <= k < i ==> out@[k] as int == #[trigger] reduce(ints(v@), m as int)[k],
        decreases v@.len() - i,
    {
        out.push(rem_euclid_i16(v[i], m));
        i += 1;
    }
    proof {
        assert(ints(out@) =~= reduce(ints(v@), m as int));
    }
    out
}

/// The quasi-periodic function of a pattern of at most `i16::MAX`
/// harmonics, at a non-negative index below twice that.
pub fn eval_pattern_wide(h: &Vec<i16>, t: i16, i: i32) -> (r: i64)
    requires
        0 < h@.len() <= 0x7fff,
        0 <= i <= 0x10000,
    ensures
        r as int == eval_pattern(ints(h@), t as int, i as int),
{
    let len = h.len();
    let q = (i as u32 / len as u32) as i64;
    let rem = (i as u32 % len as u32) as usize;
    proof {
        lemma_div_pos_is_pos(i as int, len as int);
        lemma_div_is_ordered_by_denominator(i as int, 1, len as int);
        lemma_mod_bound(i as int, len as int);
    }
    let m = h[len - 1] as i64;
    let base: i64 = if rem == 0 {
        0
    } else {
        h[rem - 1] as i64
    };
    proof {
        assert(-0x8000 * 0x10000 <= q * m <= 0x8000 * 0x10000) by (nonlinear_arith)
            requires
                0 <= q <= 0x10000,
                -0x8000 <= m <= 0x7fff,
        ;
    }
    q * m + base + t as i64
}

/// The pattern seen from index `a`: the values at the `L` indices after
/// `a`, less the value at `a`.
pub fn rotate_pattern(h: &Vec<i16>, t: i16, a: i16) -> (r: Vec<i16>)
    requires
        0 < h@.len() <= 0x7fff,
        fits_i16(rotated_pattern(ints(h@), t as int, a as int)),
    ensures
        ints(r@) == rotated_pattern(ints(h@), t as int, a as int),
{
    let len = h.len();
    let b = index_mod(a, len);
    proof {
        lemma_rotated_pattern_periodic(ints(h@), t as int, a as int);
    }
    let ghost target = rotated_pattern(ints(h@), t as int, b as int);
    let base = eval_pattern_wide(h, t, b as i32);
    let mut out: Vec<i16> = Vec::new();
    let mut j: usize = 0;
    while j < len
        invariant
            j <= len,
            len == h@.len(),
            0 < len <= 0x7fff,
            b < len,
            base as int == eval_pattern(ints(h@), t as int, b as int),
            target == rotated_pattern(ints(h@), t as int, b as int),
            fits_i16(target),
            out@.len() == j,
            forall|k: int| 0 <= k < j ==> out@[k] as int == #[trigger] target[k],
        decreases len - j,
    {
        let v = eval_pattern_wide(h, t, (b + j + 1) as i32);
        proof {
            assert(target[j as int] == v - base);
        }
        out.push((v - base) as i16);
        j += 1;
    }
    proof {
        assert(ints(out@) =~= target);
    }
    out
}

/// How many values, shifted up by `t`, stay below `m`.
pub fn count_shifted_below(v: &Vec<i16>, t: i16, m: i16) -> (r: usize)
    ensures
        r as nat == count_below(shift(ints(v@), t as int), m as int),
        r <= v@.len(),
{
    let ghost w = shift(ints(v@), t as int);
    let mut c: usize = 0;
    let mut i: usize = 0;
    proof {
        assert(w.take(0) =~= Seq::<int>::empty());
    }
    while i < v.len()
        invariant
            i <= v@.len(),
            w == shift(ints(v@), t as int),
            c as nat == count_below(w.take(i as int), m as int),
            c <= i,
        decreases v@.len() - i,
    {
        proof {
            assert(w.take(i as int + 1).drop_last() =~= w.take(i as int));
        }
        if (v[i] as i32 + t as i32) < m as i32 {
            c += 1;
        }
        i += 1;
    }
    proof {
        assert(w.take(v@.len() as int) =~= w);
    }
    c
}

/// Removes repeated values from a sorted list, keeping one of each.
pub fn dedup_sorted(v: &Vec<i16>) -> (r: Vec<i16>)
    requires
        sorted(ints(v@)),
    ensures
        ascending(ints(r@)),
        forall|x: i16| r@.contains(x) <==> v@.contains(x),
{
    let mut out: Vec<i16> = Vec::new();
    let mut i: usize = 0;
    while i < v.len()
        invariant
            i <= v@.len(),
            sorted(ints(v@)),
            ascending(ints(out@)),
            forall|x: i16| out@.contains(x) <==> v@.take(i as int).contains(x),
            out@.len() > 0 ==> i > 0 && out@.last() == v@[i - 1],
        decreases v@.len() - i,
    {
        let x = v[i];
        proof {
            assert(v@.take(i as int + 1) =~= v@.take(i as int).push(x));
        }
        if out.len() == 0 || out[out.len() - 1] != x {
            let ghost before = out@;
            proof {
                assert(ints(before.push(x)) =~= ints(before).push(x as int));
                if before.len() > 0 {
                    assert(ints(v@)[i - 1] <= ints(v@)[i as int]);
                    assert forall|a: int| 0 <= a < before.len() implies ints(before)[a] < x by {
                        if a < before.len() - 1 {
                            assert(ints(before)[a] < ints(before)[before.len() - 1]);
                        }
                    }
                }
            }
            out.push(x);
            proof {
                assert(out@ == before.push(x));
                assert forall|y: i16| out@.contains(y) <==> v@.take(i as int + 1).contains(y) by {
                    if out@.contains(y) && y != x {
                        let k = choose|k: int| 0 <= k < out@.len() && out@[k] == y;
                        assert(before[k] == y);
                        assert(before.contains(y));
                    }
                    if v@.take(i as int + 1).contains(y) && y != x {
                        let k = choose|k: int| 0 <= k < i + 1 && #[trigger] v@.take(i as int + 1)[k] == y;
                        assert(v@.take(i as int)[k] == y);
                        assert(before.contains(y));
                        let k2 = choose|k2: int| 0 <= k2 < before.len() && before[k2] == y;
                        assert(out@[k2] == y);
                    }
                    if y == x {
                        assert(out@[out@.len() - 1] == y);
                        assert(v@.take(i as int + 1)[i as int] == y);
                    }
                }
            }
        } else {
            proof {
                assert forall|y: i16| out@.contains(y) <==> v@.take(i as int + 1).contains(y) by {
                    if y == x {
                        assert(out@[out@.len() - 1] == y);
                        assert(v@.take(i as int + 1)[i as int] == y);
                    }
                }
            }
        }
        i += 1;
    }
    proof {
        assert(v@.take(v@.len() as int) =~= v@);
    }
    out
}

/// `n` modulo a positive length, as an index.
pub fn index_mod(n: i16, len: usize) -> (r: usize)
    requires
        0 < len,
    ensures
        r as int == n as int % len as int,
        r < len,
{
    if n >= 0 {
        proof {
            lemma_mod_bound(n as int, len as int);
        }
        (n as usize) % len
    } else {
        let x: usize = (-(n as i32)) as usize;
        let p = x % len;
        proof {
            lemma_fundamental_div_mod(x as int, len as int);
            lemma_mod_bound(x as int, len as int);
            lemma_mod_bound(n as int, len as int);
        }
        if p == 0 {
            proof {
                let q = x as int / len as int;
                assert(n as int == (-q) * len + 0) by (nonlinear_arith)
                    requires
                        x == len * q + p,
                        p == 0,
                        n == -x,
                ;
                lemma_fundamental_div_mod_converse(n as int, len as int, -q, 0);
            }
            0
        } else {
            proof {
                let q = x as int / len as int;
                assert(n as int == (-q - 1) * len + (len - p)) by (nonlinear_arith)
                    requires
                        x == len * q + p,
                        n == -x,
                ;
                lemma_fundamental_div_mod_converse(n as int, len as int, -q - 1, len - p);
            }
            len - p
        }
    }
}

/// `v` rotated left by `k` places, `k` below its length.
pub fn rotated(v: &Vec<i16>, k: usize) -> (r: Vec<i16>)
    requires
        k < v@.len(),
    ensures
        r@ == rotate_left(v@, k as int),
{
    let mut out: Vec<i16> = Vec::new();
    let mut j: usize = k;
    while j < v.len()
        invariant
            k <= j <= v@.len(),
            out@ =~= v@.subrange(k as int, j as int),
        decreases v@.len() - j,
    {
        out.push(v[j]);
        j += 1;
    }
    let mut j: usize = 0;
    while j < k
        invariant
            j <= k < v@.len(),
            out@ =~= v@.skip(k as int) + v@.take(j as int),
        decreases k - j,
    {
        out.push(v[j]);
        j += 1;
    }
    proof {
        lemma_small_mod(k as nat, v@.len());
    }
    out
}

} // verus!
