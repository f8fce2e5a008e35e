//! General-purpose list tools: repetition, sorting, cyclic reordering,
//! order checks and the search for a minimal repeating block.
use crate::algebra::{aperiodic_block, ints, least_tile_from, repeat_seq, rotate_left, sorted, stretch_seq, tiles};
use vstd::arithmetic::div_mod::*;
use vstd::arithmetic::mul::*;
use std::collections::HashSet;
use vstd::prelude::*;
use vstd::seq_lib::{to_multiset_build, to_multiset_insert};

verus! {

/// Concatenates `input` with itself `n` times.
pub fn repeat_list<T: Copy>(input: &[T], n: usize) -> (r: Vec<T>)
    requires
        input@.len() * n <= usize::MAX,
    ensures
        r@ == repeat_seq(input@, n as nat),
{
    let len = input.len();
    let mut out: Vec<T> = Vec::new();
    let mut k: usize = 0;
    while k < n
        invariant
            k <= n,
            len == input@.len(),
            len * n <= usize::MAX,
            out@ =~= repeat_seq(input@, k as nat),
        decreases n - k,
    {
        proof {
            assert(len * k + len <= len * n) by (nonlinear_arith)
                requires
                    k < n,
                    0 <= len,
            ;
        }
        let mut j: usize = 0;
        while j < len
            invariant
                j <= len,
                k < n,
                len == input@.len(),
                len * k + len <= len * n,
                len * n <= usize::MAX,
                out@ =~= repeat_seq(input@, k as nat) + input@.take(j as int),
            decreases len - j,
        {
            out.push(input[j]);
            proof {
                assert(input@.take(j as int + 1) =~= input@.take(j as int).push(input@[j as int]));
            }
            j += 1;
        }
        proof {
            assert(input@.take(len as int) =~= input@);
            let prev = repeat_seq(input@, k as nat);
            let next = repeat_seq(input@, (k + 1) as nat);
            lemma_mul_is_distributive_add(len as int, k as int, 1);
            assert forall|i: int| 0 <= i < next.len() implies next[i] == (prev + input@)[i] by {
                if i >= prev.len() {
                    lemma_mod_sub_multiples_vanish_k(i, len as int, k as int);
                }
            }
            assert(next =~= prev + input@);
        }
        k += 1;
    }
    out
}

/// `(i - len * k) % len == i % len`, for `len * k <= i < len * k + len`, written
/// as the value it leaves.
proof fn lemma_mod_sub_multiples_vanish_k(i: int, len: int, k: int)
    requires
        0 < len,
        0 <= k,
        len * k <= i < len * k + len,
    ensures
        i % len == i - len * k,
{
    lemma_mul_is_commutative(len, k);
    lemma_fundamental_div_mod_converse(i, len, k, i - len * k);
}

/// Replaces each element of `input` with `n` copies of it.
pub fn stretch_list<T: Copy>(input: &[T], n: usize) -> (r: Vec<T>)
    requires
        input@.len() * n <= usize::MAX,
    ensures
        r@ == stretch_seq(input@, n as nat),
{
    let len = input.len();
    let mut out: Vec<T> = Vec::new();
    let mut k: usize = 0;
    while k < len
        invariant
            k <= len,
            len == input@.len(),
            len * n <= usize::MAX,
            out@.len() == k * n,
            forall|i: int| 0 <= i < k * n ==> out@[i] == #[trigger] input@[i / (n as int)],
        decreases len - k,
    {
        proof {
            lemma_mul_inequality(k as int + 1, len as int, n as int);
            lemma_mul_is_distributive_add_other_way(n as int, k as int, 1);
        }
        let x = input[k];
        let mut j: usize = 0;
        while j < n
            invariant
                j <= n,
                k < len,
                len == input@.len(),
                x == input@[k as int],
                k * n + n <= len * n,
                len * n <= usize::MAX,
                out@.len() == k * n + j,
                forall|i: int| 0 <= i < k * n + j ==> out@[i] == #[trigger] input@[i / (n as int)],
            decreases n - j,
        {
            proof {
                lemma_fundamental_div_mod_converse(k * n + j, n as int, k as int, j as int);
            }
            out.push(x);
            j += 1;
        }
        k += 1;
    }
    proof {
        assert(out@ =~= stretch_seq(input@, n as nat));
    }
    out
}

/// Returns a sorted copy of `slice`: ascending, holding the same values the
/// same number of times.
pub fn sort_vector(slice: &[i16]) -> (r: Vec<i16>)
    ensures
        sorted(ints(r@)),
        r@.to_multiset() == slice@.to_multiset(),
{
    let mut out: Vec<i16> = Vec::new();
    let mut i: usize = 0;
    proof {
        assert(slice@.take(0) =~= out@);
    }
    while i < slice.len()
        invariant
            i <= slice@.len(),
            sorted(ints(out@)),
            out@.to_multiset() == slice@.take(i as int).to_multiset(),
        decreases slice@.len() - i,
    {
        let x = slice[i];
        let mut p: usize = 0;
        while p < out.len() && out[p] <= x
            invariant
                p <= out@.len(),
                forall|k: int| 0 <= k < p ==> out@[k] <= x,
            decreases out@.len() - p,
        {
            p += 1;
        }
        proof {
            if p < out@.len() {
                assert(forall|k: int| p <= k < out@.len() ==> ints(out@)[p as int] <= ints(out@)[k]);
            }
        }
        let ghost before = out@;
        out.insert(p, x);
        proof {
            assert(ints(out@) =~= ints(before).insert(p as int, x as int));
            to_multiset_insert(before, p as int, x);
            assert(slice@.take(i as int + 1) =~= slice@.take(i as int).push(x));
            to_multiset_build(slice@.take(i as int), x);
        }
        i += 1;
    }
    proof {
        assert(slice@.take(slice@.len() as int) =~= slice@);
    }
    out
}

/// Returns `slice` rotated so that it begins at the first occurrence of `start`.
pub fn cyclically_order_vector(slice: &[i16], start: i16) -> (r: Vec<i16>)
    requires
        slice@.contains(start),
    ensures
        exists|k: int|
            #![trigger slice@[k]]
            0 <= k < slice@.len() && slice@[k] == start && (forall|j: int|
                0 <= j < k ==> slice@[j] != start) && r@ == rotate_left(slice@, k),
{
    let mut k: usize = 0;
    while slice[k] != start
        invariant
            k < slice@.len(),
            slice@.contains(start),
            forall|j: int| 0 <= j < k ==> slice@[j] != start,
        decreases slice@.len() - k,
    {
        k += 1;
        proof {
            if k == slice@.len() {
                let w = choose|w: int| 0 <= w < slice@.len() && slice@[w] == start;
                assert(slice@[w] == start);
            }
        }
    }
    let mut out: Vec<i16> = Vec::new();
    let mut j: usize = k;
    while j < slice.len()
        invariant
            k <= j <= slice@.len(),
            out@ =~= slice@.subrange(k as int, j as int),
        decreases slice@.len() - j,
    {
        out.push(slice[j]);
        j += 1;
    }
    let mut j: usize = 0;
    while j < k
        invariant
            j <= k < slice@.len(),
            out@ =~= slice@.skip(k as int) + slice@.take(j as int),
        decreases k - j,
    {
        out.push(slice[j]);
        j += 1;
    }
    proof {
        lemma_small_mod(k as nat, slice@.len());
    }
    out
}

/// The set of the values in `arr`.
pub fn vector_to_hashset(arr: &[i16]) -> (r: HashSet<i16>)
    ensures
        r@ == arr@.to_set(),
{
    broadcast use vstd::std_specs::hash::group_hash_axioms;

    let mut set: HashSet<i16> = HashSet::new();
    let mut i: usize = 0;
    while i < arr.len()
        invariant
            i <= arr@.len(),
            set@ == arr@.take(i as int).to_set(),
        decreases arr@.len() - i,
    {
        set.insert(arr[i]);
        proof {
            assert(arr@.take(i as int + 1) =~= arr@.take(i as int).push(arr@[i as int]));
            lemma_push_to_set(arr@.take(i as int), arr@[i as int]);
        }
        i += 1;
    }
    proof {
        assert(arr@.take(arr@.len() as int) =~= arr@);
    }
    set
}

/// The set of a list with one more value is the set with that value added.
proof fn lemma_push_to_set(s: Seq<i16>, x: i16)
    ensures
        s.push(x).to_set() == s.to_set().insert(x),
{
    assert forall|y: i16| s.push(x).to_set().contains(y) <==> s.to_set().insert(x).contains(y) by {
        if s.push(x).contains(y) && y != x {
            let k = choose|k: int| 0 <= k < s.len() + 1 && s.push(x)[k] == y;
            assert(s[k] == y);
        }
        if s.contains(y) {
            let k = choose|k: int| 0 <= k < s.len() && s[k] == y;
            assert(s.push(x)[k] == y);
        }
        if y == x {
            assert(s.push(x)[s.len() as int] == x);
        }
    }
    assert(s.push(x).to_set() =~= s.to_set().insert(x));
}

/// Reports whether no value occurs twice.
pub fn collection_is_unique(collection: &[i16]) -> (r: bool)
    ensures
        r == (forall|i: int, j: int|
            0 <= i < j < collection@.len() ==> collection@[i] != collection@[j]),
{
    let n = collection.len();
    let mut i: usize = 0;
    while i < n
        invariant
            i <= n,
            n == collection@.len(),
            forall|a: int, b: int| 0 <= a < b < n && a < i ==> collection@[a] != collection@[b],
        decreases n - i,
    {
        let mut j: usize = i + 1;
        while j < n
            invariant
                i < j <= n,
                n == collection@.len(),
                forall|a: int, b: int| 0 <= a < b < n && a < i ==> collection@[a] != collection@[b],
                forall|b: int| i < b < j ==> collection@[i as int] != collection@[b],
            decreases n - j,
        {
            if collection[i] == collection[j] {
                return false;
            }
            j += 1;
        }
        i += 1;
    }
    true
}

/// Reports whether every value is at most the one after it.
pub fn collection_is_sorted(collection: &[i16]) -> (r: bool)
    ensures
        r == sorted(ints(collection@)),
{
    let n = collection.len();
    let mut i: usize = 1;
    while i < n
        invariant
            1 <= i,
            n == collection@.len(),
            forall|a: int, b: int| 0 <= a <= b < n && b < i ==> collection@[a] <= collection@[b],
        decreases n - i,
    {
        if collection[i - 1] > collection[i] {
            proof {
                assert(ints(collection@)[i - 1] > ints(collection@)[i as int]);
            }
            return false;
        }
        i += 1;
    }
    true
}

/// Reports whether the values ascend, or the last is at most the first (a
/// cyclic order that wraps around).
pub fn collection_is_cyclically_ascending(collection: &[i16]) -> (r: bool)
    ensures
        r == (sorted(ints(collection@)) || (collection@.len() > 0 && collection@.last()
            <= collection@[0])),
{
    if collection_is_sorted(collection) {
        true
    } else {
        collection[collection.len() - 1] <= collection[0]
    }
}

/// Returns the minimal block whose repetition makes up `sequence` (the
/// sequence itself when it is aperiodic, and an empty list for an empty one).
pub fn find_aperiodic_substring(sequence: &[i16]) -> (r: Vec<i16>)
    ensures
        r@ == aperiodic_block(sequence@),
{
    let n = sequence.len();
    let mut d: usize = 1;
    while d < n
        invariant
            1 <= d,
            n == sequence@.len(),
            d <= n || n == 0,
            least_tile_from(sequence@, 1) == least_tile_from(sequence@, d as int),
        decreases n - d,
    {
        if n % d == 0 && tiled_by(sequence, d) {
            return copy_prefix(sequence, d);
        }
        d += 1;
    }
    copy_prefix(sequence, n)
}

/// Reports whether the first `d` elements, repeated, make up `s` (`d` divides its length).
fn tiled_by(s: &[i16], d: usize) -> (r: bool)
    requires
        0 < d <= s@.len(),
        s@.len() % (d as nat) == 0,
    ensures
        r == tiles(s@, d as int),
{
    let mut i: usize = 0;
    while i < s.len()
        invariant
            0 < d <= s@.len(),
            forall|k: int| 0 <= k < i ==> #[trigger] s@[k] == s@[k % (d as int)],
        decreases s@.len() - i,
    {
        proof {
            lemma_mod_bound(i as int, d as int);
        }
        if s[i] != s[i % d] {
            return false;
        }
        i += 1;
    }
    true
}

/// A copy of the first `d` elements.
fn copy_prefix(s: &[i16], d: usize) -> (r: Vec<i16>)
    requires
        d <= s@.len(),
    ensures
        r@ == s@.take(d as int),
{
    let mut out: Vec<i16> = Vec::new();
    let mut i: usize = 0;
    while i < d
        invariant
            i <= d <= s@.len(),
            out@ =~= s@.take(i as int),
        decreases d - i,
    {
        out.push(s[i]);
        i += 1;
    }
    out
}

} // verus!
