//! Shared arithmetic and permutation helpers used across the library:
//! wrap-around modulo, gcd and modular inverses, permutation inversion and
//! keyword-order extraction.

use vstd::prelude::*;

verus! {

/// A sequence holding each value of `0..n` exactly once.
pub open spec fn is_permutation_of(s: Seq<i16>, n: int) -> bool {
    &&& s.len() == n
    &&& s.no_duplicates()
    &&& forall|i: int| 0 <= i < s.len() ==> 0 <= #[trigger] s[i] < n
}

/// A sequence of distinct values drawn from `0..n` that contains all of them
/// has length exactly `n`.
pub proof fn lemma_distinct_cover_len(s: Seq<i16>, n: int)
    requires
        0 <= n <= 0x8000,
        s.no_duplicates(),
        forall|i: int| 0 <= i < s.len() ==> 0 <= #[trigger] s[i] < n,
        forall|v: int| 0 <= v < n ==> #[trigger] s.contains(v as i16),
    ensures
        s.len() == n,
{
    let mapped = s.map_values(|x: i16| x as int);
    assert(mapped.no_duplicates()) by {
        assert forall|i: int, j: int|
            0 <= i < mapped.len() && 0 <= j < mapped.len() && i != j implies mapped[i]
            != mapped[j] by {
            assert(s[i] != s[j]);
        }
    }
    mapped.unique_seq_to_set();
    let range = vstd::set_lib::set_int_range(0, n);
    assert(mapped.to_set() =~= range) by {
        assert forall|v: int| range.contains(v) implies mapped.to_set().contains(v) by {
            assert(s.contains(v as i16));
            let k = choose|k: int| 0 <= k < s.len() && s[k] == v as i16;
            assert(mapped[k] == v);
        }
    }
    vstd::set_lib::lemma_int_range(0, n);
}

/// A permutation of `0..n` contains every value of the range: were one
/// missing, its distinct values would fit in a smaller range.
pub proof fn lemma_permutation_covers(s: Seq<i16>, n: int)
    requires
        0 <= n <= 0x8000,
        is_permutation_of(s, n),
    ensures
        forall|v: int| 0 <= v < n ==> #[trigger] s.contains(v as i16),
{
    assert forall|v: int| 0 <= v < n implies #[trigger] s.contains(v as i16) by {
        if !s.contains(v as i16) {
            let mapped = s.map_values(|x: i16| x as int);
            assert(mapped.no_duplicates()) by {
                assert forall|i: int, j: int|
                    0 <= i < mapped.len() && 0 <= j < mapped.len() && i != j implies mapped[i]
                    != mapped[j] by {
                    assert(s[i] != s[j]);
                }
            }
            mapped.unique_seq_to_set();
            let range = vstd::set_lib::set_int_range(0, n);
            vstd::set_lib::lemma_int_range(0, n);
            assert(mapped.to_set().subset_of(range.remove(v))) by {
                assert forall|w: int| mapped.to_set().contains(w) implies range.remove(
                    v,
                ).contains(w) by {
                    let k = choose|k: int| 0 <= k < mapped.len() && mapped[k] == w;
                    assert(0 <= s[k] < n);
                    if w == v {
                        assert(s[k] == v as i16);
                        assert(s.contains(v as i16));
                    }
                }
            }
            assert(range.remove(v).len() == n - 1) by {
                assert(range.contains(v));
            }
            vstd::set_lib::lemma_len_subset(mapped.to_set(), range.remove(v));
            assert(false);
        }
    }
}

/// The inverse table of a permutation is itself a permutation, and the
/// two invert each other in both directions.
pub proof fn lemma_invert_permutation(arr: Seq<i16>, r: Seq<i16>, n: int)
    requires
        0 <= n <= 0x8000,
        is_permutation_of(arr, n),
        r.len() == n,
        forall|i: int| 0 <= i < n ==> 0 <= #[trigger] r[i] < n,
        forall|i: int| 0 <= i < n ==> r[#[trigger] arr[i] as int] == i as i16,
    ensures
        is_permutation_of(r, n),
        forall|p: int| 0 <= p < n ==> arr[#[trigger] r[p] as int] == p as i16,
{
    lemma_permutation_covers(arr, n);
    assert forall|p: int| 0 <= p < n implies arr[#[trigger] r[p] as int] == p as i16 by {
        assert(arr.contains(p as i16));
        let i = choose|i: int| 0 <= i < arr.len() && arr[i] == p as i16;
        assert(r[p] == i as i16);
    }
    assert forall|p1: int, p2: int|
        0 <= p1 < n && 0 <= p2 < n && p1 != p2 implies r[p1] != r[p2] by {
        if r[p1] == r[p2] {
            assert(arr[r[p1] as int] == p1 as i16);
            assert(arr[r[p2] as int] == p2 as i16);
        }
    }
}

/// Completing a full permutation adds nothing: its first occurrences are
/// itself, and no value of the range is missing.
pub proof fn lemma_fill_of_permutation(p: Seq<i16>, n: int)
    requires
        0 <= n <= 0x8000,
        is_permutation_of(p, n),
    ensures
        first_occurrences(p) == p,
        ascending_missing(p, 0, n) == Seq::<i16>::empty(),
{
    lemma_first_occ_of_distinct(p);
    lemma_permutation_covers(p, n);
    lemma_missing_of_covered(p, n);
}

/// The first occurrences of a duplicate-free sequence are the sequence.
proof fn lemma_first_occ_of_distinct(s: Seq<i16>)
    requires
        s.no_duplicates(),
    ensures
        first_occurrences(s) == s,
    decreases s.len(),
{
    if s.len() > 0 {
        let pre = s.drop_last();
        assert(pre.no_duplicates()) by {
            assert forall|i: int, j: int|
                0 <= i < pre.len() && 0 <= j < pre.len() && i != j implies pre[i] != pre[j] by {
                assert(pre[i] == s[i] && pre[j] == s[j]);
            }
        }
        assert(!pre.contains(s.last())) by {
            if pre.contains(s.last()) {
                let k = choose|k: int| 0 <= k < pre.len() && pre[k] == s.last();
                assert(s[k] == s[s.len() - 1]);
            }
        }
        lemma_first_occ_of_distinct(pre);
        assert(first_occurrences(s) =~= s);
    } else {
        assert(first_occurrences(s) =~= s);
    }
}

/// Nothing is missing below a bound that the sequence fully covers.
proof fn lemma_missing_of_covered(s: Seq<i16>, hi: int)
    requires
        forall|v: int| 0 <= v < hi ==> #[trigger] s.contains(v as i16),
    ensures
        ascending_missing(s, 0, hi) == Seq::<i16>::empty(),
    decreases hi,
{
    if hi > 0 {
        lemma_missing_of_covered(s, hi - 1);
        assert(s.contains((hi - 1) as i16));
    } else {
        assert(ascending_missing(s, 0, hi) =~= Seq::<i16>::empty());
    }
}

/// Swapping two positions of a sequence leaves its multiset unchanged.
pub proof fn lemma_swap_preserves_multiset(s: Seq<i16>, i: int, j: int)
    requires
        0 <= i < s.len(),
        0 <= j < s.len(),
    ensures
        s.update(i, s[j]).update(j, s[i]).to_multiset() == s.to_multiset(),
{
    broadcast use vstd::seq_lib::to_multiset_remove, vstd::seq_lib::to_multiset_insert;

    if i == j {
        assert(s.update(i, s[j]).update(j, s[i]) =~= s);
    } else {
        let t = s.update(i, s[j]);
        assert(t =~= s.remove(i).insert(i, s[j]));
        let u = t.update(j, t[i]);
        assert(u =~= t.remove(j).insert(j, t[j]));
        assert(t[j] == s[j] && t[i] == s[j]);
        let u2 = s.update(i, s[j]).update(j, s[i]);
        assert(u2 =~= t.remove(j).insert(j, s[i]));
        assert(t.to_multiset() == s.to_multiset().remove(s[i]).insert(s[j]));
        assert(t.remove(j).to_multiset() == t.to_multiset().remove(t[j]));
        assert(u2.to_multiset() == t.to_multiset().remove(s[j]).insert(s[i]));
        assert(u2.to_multiset() =~= s.to_multiset()) by {
            broadcast use vstd::multiset::group_multiset_axioms;

            assert(s.to_multiset().contains(s[i])) by {
                broadcast use vstd::seq_lib::to_multiset_contains;

                assert(s.contains(s[i]));
            }
            assert(s.to_multiset().remove(s[i]).insert(s[j]).contains(s[j]));
        }
    }
}

/// Two sequences with equal multisets cover the same values, so being a
/// permutation of `0..n` carries over from one to the other.
pub proof fn lemma_multiset_permutation_transfer(s1: Seq<i16>, s2: Seq<i16>, n: int)
    requires
        s1.to_multiset() == s2.to_multiset(),
        is_permutation_of(s1, n),
        s2.len() == s1.len(),
    ensures
        is_permutation_of(s2, n),
{
    broadcast use vstd::seq_lib::group_to_multiset_ensures;

    s1.lemma_multiset_has_no_duplicates();
    s2.lemma_multiset_has_no_duplicates_conv();
    assert forall|i: int| 0 <= i < s2.len() implies 0 <= #[trigger] s2[i] < n by {
        assert(s2.contains(s2[i]));
        assert(s2.to_multiset().count(s2[i]) > 0);
        assert(s1.contains(s2[i]));
        let k = choose|k: int| 0 <= k < s1.len() && s1[k] == s2[i];
        assert(0 <= s1[k] < n);
    }
}

/// Performs the modulo operation, but ensures a non-negative result, so that
/// it functions for negative numbers by wrapping around the modulus `b`.
///
/// The result is the mathematical (Euclidean) remainder of `a` modulo `b`.
pub fn modulo(a: i16, b: i16) -> (r: i16)
    requires
        0 < b,
    ensures
        r as int == (a as int) % (b as int),
        0 <= r < b,
{
    let wide = a as i32;
    let bw = b as i32;
    if wide >= 0 {
        (wide % bw) as i16
    } else {
        let down = (-wide - 1) % bw;
        proof {
            let x = (-wide - 1) as int;
            let q = x / (bw as int);
            assert(down == x % (bw as int));
            vstd::arithmetic::div_mod::lemma_fundamental_div_mod(x, bw as int);
            assert(x == (bw as int) * q + down);
            assert(a as int == -(q + 1) * (b as int) + (bw - 1 - down)) by (nonlinear_arith)
                requires
                    x == (bw as int) * q + down,
                    x == -(a as int) - 1,
                    bw == b as int,
            ;
            vstd::arithmetic::div_mod::lemma_fundamental_div_mod_converse_mod(
                a as int,
                b as int,
                -(q + 1),
                (bw - 1 - down) as int,
            );
        }
        (bw - 1 - down) as i16
    }
}

/// Greatest common divisor of non-negative `a` and `b` by Euclid's rule.
pub open spec fn spec_gcd(a: int, b: int) -> int
    recommends
        a >= 0,
        b >= 0,
    decreases b,
{
    if b <= 0 {
        a
    } else {
        spec_gcd(b, a % b)
    }
}

/// Calculates the greatest common divisor of `a` and `b`.
pub fn gcd(a: i16, b: i16) -> (g: i16)
    requires
        a >= 0,
        b >= 0,
    ensures
        g == spec_gcd(a as int, b as int),
    decreases b,
{
    if b == 0 {
        a
    } else {
        gcd(b, a % b)
    }
}

/// Does `m` invert `a` modulo `b`, in the range `0..b`?
pub open spec fn is_mod_inverse(a: int, b: int, m: int) -> bool {
    &&& 0 <= m < b
    &&& (a * m) % b == 1
}

/// Calculates the modular multiplicative inverse `mmi` of `a` modulo `b`,
/// satisfying `(a * mmi) % b == 1`. Returns `None` if there is no solution.
/// A modulus of 1 admits the trivial inverse 0.
pub fn mmi(a: i16, b: i16) -> (r: Option<i16>)
    requires
        0 < b,
    ensures
        b == 1 ==> r == Some(0i16),
        b > 1 ==> match r {
            Some(m) => is_mod_inverse(a as int, b as int, m as int),
            None => forall|m: int| 0 <= m < b ==> !is_mod_inverse(a as int, b as int, m),
        },
{
    if b == 1 {
        return Some(0);
    }
    let a_red = modulo(a, b) as i32;
    let bw = b as i32;
    let mut m: i16 = 0;
    while m < b
        invariant
            0 <= m <= b,
            1 < b,
            a_red == (a as int) % (b as int),
            bw == b as int,
            forall|k: int| 0 <= k < m ==> !is_mod_inverse(a as int, b as int, k),
        decreases b - m,
    {
        proof {
            assert(a_red * m <= 32767 * 32767) by (nonlinear_arith)
                requires
                    0 <= a_red <= 32767,
                    0 <= m <= 32767,
            ;
            assert(a_red * m >= 0) by (nonlinear_arith)
                requires
                    0 <= a_red,
                    0 <= m,
            ;
        }
        let p = a_red * m as i32;
        let rem = p % bw;
        proof {
            vstd::arithmetic::div_mod::lemma_mul_mod_noop_left(a as int, m as int, b as int);
        }
        if rem == 1 {
            return Some(m);
        }
        m = m + 1;
    }
    None
}

/// Returns true if the string contains no repeated characters.
pub fn is_unique(string: &str) -> (r: bool)
    ensures
        r <==> (forall|i: int, j: int|
            0 <= i < j < string@.len() ==> string@[i] != string@[j]),
{
    let n = string.unicode_len();
    let mut i: usize = 0;
    while i < n
        invariant
            i <= n,
            n == string@.len(),
            forall|p: int, q: int| 0 <= p < q < string@.len() && p < i ==> string@[p] != string@[q],
        decreases n - i,
    {
        let ci = string.get_char(i);
        let mut j: usize = i + 1;
        while j < n
            invariant
                i < j <= n,
                i < n,
                n == string@.len(),
                ci == string@[i as int],
                forall|q: int| i < q < j ==> string@[i as int] != string@[q],
            decreases n - j,
        {
            if string.get_char(j) == ci {
                return false;
            }
            j = j + 1;
        }
        i = i + 1;
    }
    true
}

/// Fills a `Vec<i16>` with values incremented by 1 each time, starting from
/// `start`. Each value is reduced modulo `modulus`.
pub fn fill_consecutive_vec(arr: &mut Vec<i16>, start: i16, modulus: i16)
    requires
        0 <= start,
        0 < modulus,
        start + old(arr).len() <= 0x7FFF,
    ensures
        final(arr).len() == old(arr).len(),
        forall|k: int|
            0 <= k < final(arr).len() ==> final(arr)@[k] == (start + k) % (modulus as int),
{
    let n = arr.len();
    let mut k: usize = 0;
    while k < n
        invariant
            k <= n,
            n == arr.len(),
            0 <= start,
            0 < modulus,
            start + n <= 0x7FFF,
            forall|p: int| 0 <= p < k ==> arr@[p] == (start + p) % (modulus as int),
        decreases n - k,
    {
        let v = modulo(start + k as i16, modulus);
        arr.set(k, v);
        k = k + 1;
    }
}

/// Inverts a substitution alphabet (a slice holding each of the elements
/// `0..arr.len()` once), transforming `arr[idx] == value` into
/// `r[value] == idx`.
pub fn invert(arr: &[i16]) -> (r: Vec<i16>)
    requires
        arr@.len() <= 0x7FFF,
        forall|i: int| 0 <= i < arr@.len() ==> 0 <= #[trigger] arr@[i] < arr@.len(),
        forall|i: int, j: int| 0 <= i < j < arr@.len() ==> arr@[i] != arr@[j],
    ensures
        r.len() == arr@.len(),
        forall|i: int| 0 <= i < arr@.len() ==> r@[#[trigger] arr@[i] as int] == i as i16,
        forall|k: int| 0 <= k < r.len() ==> 0 <= #[trigger] r@[k] < arr@.len(),
{
    let n = arr.len();
    let mut dest: Vec<i16> = Vec::new();
    let mut k: usize = 0;
    while k < n
        invariant
            k <= n,
            dest.len() == k,
            forall|p: int| 0 <= p < k ==> #[trigger] dest@[p] == 0,
        decreases n - k,
    {
        dest.push(0);
        k = k + 1;
    }
    let mut i: usize = 0;
    while i < n
        invariant
            i <= n,
            n == arr@.len() <= 0x7FFF,
            dest.len() == n,
            forall|p: int| 0 <= p < n ==> 0 <= #[trigger] arr@[p] < n,
            forall|p: int, q: int| 0 <= p < q < n ==> arr@[p] != arr@[q],
            forall|p: int| 0 <= p < i ==> dest@[#[trigger] arr@[p] as int] == p as i16,
            forall|k: int| 0 <= k < n ==> 0 <= #[trigger] dest@[k] < n,
        decreases n - i,
    {
        dest.set(arr[i] as usize, i as i16);
        i = i + 1;
    }
    dest
}

/// Does the pair `(a, i)` sort strictly before `(b, j)`, comparing values
/// first and positions second?
pub open spec fn rank_before(a: i16, i: int, b: i16, j: int) -> bool {
    a < b || (a == b && i < j)
}

/// The number of positions of `key` that sort strictly before position `i`.
pub open spec fn rank_count(key: Seq<i16>, i: int, upto: int) -> int
    decreases upto,
{
    if upto <= 0 {
        0
    } else {
        rank_count(key, i, upto - 1) + if rank_before(key[upto - 1], upto - 1, key[i], i) {
            1int
        } else {
            0int
        }
    }
}

/// Generates the permutation of `0..key.len()` that sorts in the same order
/// as `key`: position `i` receives the rank of `key[i]`, with equal values
/// ranked left to right.
pub fn find_order(key: &[i16]) -> (r: Vec<usize>)
    ensures
        r.len() == key@.len(),
        forall|i: int| 0 <= i < key@.len() ==> #[trigger] r@[i] == rank_count(
            key@,
            i,
            key@.len() as int,
        ),
{
    let n = key.len();
    let mut order: Vec<usize> = Vec::new();
    let mut i: usize = 0;
    while i < n
        invariant
            i <= n,
            n == key@.len(),
            order.len() == i,
            forall|p: int| 0 <= p < i ==> #[trigger] order@[p] == rank_count(key@, p, n as int),
        decreases n - i,
    {
        let mut c: usize = 0;
        let mut j: usize = 0;
        while j < n
            invariant
                j <= n,
                i < n,
                n == key@.len(),
                c == rank_count(key@, i as int, j as int),
                c <= j,
            decreases n - j,
        {
            if key[j] < key[i] || (key[j] == key[i] && j < i) {
                c = c + 1;
            }
            j = j + 1;
        }
        order.push(c);
        i = i + 1;
    }
    order
}

/// A position that sorts before `i` has every position sorting before it
/// also sorting before `i`'s witnesses: ranks respect the sorting order.
pub proof fn lemma_rank_mono(key: Seq<i16>, i: int, j: int, upto: int)
    requires
        0 <= i < key.len(),
        0 <= j < key.len(),
        rank_before(key[i], i, key[j], j),
        0 <= upto <= key.len(),
    ensures
        rank_count(key, i, upto) <= rank_count(key, j, upto),
    decreases upto,
{
    if upto > 0 {
        lemma_rank_mono(key, i, j, upto - 1);
    }
}

/// A position that sorts strictly before another has a strictly smaller
/// rank, once the earlier position itself has been counted.
pub proof fn lemma_rank_strict(key: Seq<i16>, i: int, j: int, upto: int)
    requires
        0 <= i < key.len(),
        0 <= j < key.len(),
        rank_before(key[i], i, key[j], j),
        i < upto <= key.len(),
    ensures
        rank_count(key, i, upto) < rank_count(key, j, upto),
    decreases upto,
{
    if upto - 1 == i {
        lemma_rank_mono(key, i, j, upto - 1);
        assert(!rank_before(key[i], i, key[i], i));
    } else {
        lemma_rank_strict(key, i, j, upto - 1);
    }
}

/// Distinct positions receive distinct ranks: the sorting order of a
/// keyword is a permutation.
pub proof fn lemma_rank_injective(key: Seq<i16>, i: int, j: int)
    requires
        0 <= i < key.len(),
        0 <= j < key.len(),
        i != j,
    ensures
        rank_count(key, i, key.len() as int) != rank_count(key, j, key.len() as int),
{
    if rank_before(key[i], i, key[j], j) {
        lemma_rank_strict(key, i, j, key.len() as int);
    } else {
        assert(rank_before(key[j], j, key[i], i));
        lemma_rank_strict(key, j, i, key.len() as int);
    }
}

/// A duplicate-free sequence of `n` integers inside `[0, n)` contains every
/// value of that range.
pub proof fn lemma_int_perm_covers(s: Seq<int>, n: int)
    requires
        0 <= n,
        s.len() == n,
        forall|i: int| 0 <= i < n ==> 0 <= #[trigger] s[i] < n,
        forall|i: int, j: int| 0 <= i < j < n ==> s[i] != s[j],
    ensures
        forall|v: int| 0 <= v < n ==> #[trigger] s.contains(v),
{
    assert forall|v: int| 0 <= v < n implies #[trigger] s.contains(v) by {
        if !s.contains(v) {
            assert(s.no_duplicates()) by {
                assert forall|i: int, j: int|
                    0 <= i < s.len() && 0 <= j < s.len() && i != j implies s[i] != s[j] by {
                    if i < j {
                        assert(s[i] != s[j]);
                    } else {
                        assert(s[j] != s[i]);
                    }
                }
            }
            s.unique_seq_to_set();
            let range = vstd::set_lib::set_int_range(0, n);
            vstd::set_lib::lemma_int_range(0, n);
            assert(s.to_set().subset_of(range.remove(v))) by {
                assert forall|w: int| s.to_set().contains(w) implies range.remove(v).contains(
                    w,
                ) by {
                    let k = choose|k: int| 0 <= k < s.len() && s[k] == w;
                    assert(0 <= s[k] < n);
                }
            }
            assert(range.remove(v).len() == n - 1) by {
                assert(range.contains(v));
            }
            vstd::set_lib::lemma_len_subset(s.to_set(), range.remove(v));
            assert(false);
        }
    }
}

/// The subsequence of `s` keeping only the first occurrence of each value.
pub open spec fn first_occurrences(s: Seq<i16>) -> Seq<i16>
    decreases s.len(),
{
    if s.len() == 0 {
        Seq::empty()
    } else {
        let pre = first_occurrences(s.drop_last());
        if s.drop_last().contains(s.last()) {
            pre
        } else {
            pre.push(s.last())
        }
    }
}

/// The ascending sequence of values in `lo..hi` that `s` does not contain.
pub open spec fn ascending_missing(s: Seq<i16>, lo: int, hi: int) -> Seq<i16>
    decreases hi - lo,
{
    if hi <= lo {
        Seq::empty()
    } else {
        let pre = ascending_missing(s, lo, hi - 1);
        if s.contains((hi - 1) as i16) {
            pre
        } else {
            pre.push((hi - 1) as i16)
        }
    }
}

/// Pushes onto `result` the first occurrence of each value of `key` in turn,
/// marking seen values in `existing`, and returns the last value pushed.
fn push_key_prefix(key: &[i16], result: &mut Vec<i16>, existing: &mut Vec<bool>) -> (last: i16)
    requires
        old(result).len() == 0,
        old(existing).len() <= 0x8000,
        forall|j: int|
            0 <= j < key@.len() ==> 0 <= #[trigger] key@[j] < old(existing).len(),
        forall|v: int| 0 <= v < old(existing).len() ==> !old(existing)@[v],
    ensures
        final(existing).len() == old(existing).len(),
        final(result)@ == first_occurrences(key@),
        forall|v: int|
            0 <= v < final(existing).len() ==> (final(existing)@[v] <==> key@.contains(v as i16)),
        final(result)@.no_duplicates(),
        forall|p: int|
            0 <= p < final(result).len() ==> 0 <= #[trigger] final(result)@[p] < final(existing).len(),
        forall|v: int|
            0 <= v < final(existing).len() ==> (final(existing)@[v] <==> final(result)@.contains(v as i16)),
        key@.len() > 0 ==> final(result).len() > 0 && last == first_occurrences(key@).last(),
{
    let n = existing.len();
    let mut last: i16 = 0;
    let mut j: usize = 0;
    while j < key.len()
        invariant
            j <= key@.len(),
            existing.len() == n <= 0x8000,
            forall|p: int| 0 <= p < key@.len() ==> 0 <= #[trigger] key@[p] < n,
            result@ == first_occurrences(key@.subrange(0, j as int)),
            forall|v: int|
                0 <= v < n ==> (existing@[v] <==> key@.subrange(0, j as int).contains(v as i16)),
            forall|v: int| 0 <= v < n ==> (existing@[v] <==> result@.contains(v as i16)),
            result@.no_duplicates(),
            forall|p: int| 0 <= p < result.len() ==> 0 <= #[trigger] result@[p] < n,
            j > 0 ==> result.len() > 0 && last == result@.last(),
            j == 0 ==> result.len() == 0,
        decreases key@.len() - j,
    {
        let ghost prefix = key@.subrange(0, j as int);
        let v = key[j];
        proof {
            broadcast use vstd::seq_lib::lemma_seq_contains_after_push;

            assert(key@.subrange(0, j as int + 1) =~= prefix.push(key@[j as int]));
            assert(prefix.push(key@[j as int]).drop_last() =~= prefix);
        }
        if !existing[v as usize] {
            result.push(v);
            last = v;
        }
        existing.set(v as usize, true);
        j = j + 1;
    }
    proof {
        assert(key@.subrange(0, key@.len() as int) =~= key@);
    }
    last
}

/// Pushes onto `result` every value of `lo..hi` that `existing` does not
/// mark, in ascending order.
fn push_missing_range(
    result: &mut Vec<i16>,
    existing: &Vec<bool>,
    lo: usize,
    hi: usize,
    Ghost(key): Ghost<Seq<i16>>,
)
    requires
        lo <= hi,
        hi <= existing.len() <= 0x8000,
        forall|v: int| 0 <= v < existing.len() ==> (existing@[v] <==> key.contains(v as i16)),
    ensures
        final(result)@ == old(result)@ + ascending_missing(key, lo as int, hi as int),
{
    let ghost base = result@;
    proof {
        assert(base + ascending_missing(key, lo as int, lo as int) =~= base);
    }
    let mut val: usize = lo;
    while val < hi
        invariant
            lo <= val <= hi,
            hi <= existing.len() <= 0x8000,
            forall|v: int| 0 <= v < existing.len() ==> (existing@[v] <==> key.contains(v as i16)),
            result@ == base + ascending_missing(key, lo as int, val as int),
        decreases hi - val,
    {
        if !existing[val] {
            proof {
                assert(!key.contains(val as i16));
                assert(base + ascending_missing(key, lo as int, val as int).push(val as i16) =~= (
                base + ascending_missing(key, lo as int, val as int)).push(val as i16));
            }
            result.push(val as i16);
        }
        proof {
            assert(result@ == base + ascending_missing(key, lo as int, val as int + 1));
        }
        val = val + 1;
    }
}

/// `first_occurrences` keeps exactly the values of its input, each once,
/// and every entry is a value of the input.
pub proof fn lemma_first_occurrences_props(s: Seq<i16>)
    ensures
        first_occurrences(s).no_duplicates(),
        forall|v: i16| #[trigger] first_occurrences(s).contains(v) <==> s.contains(v),
        forall|k: int|
            0 <= k < first_occurrences(s).len() ==> s.contains(#[trigger] first_occurrences(s)[k]),
    decreases s.len(),
{
    broadcast use vstd::seq_lib::lemma_seq_contains_after_push;

    if s.len() == 0 {
        assert(forall|v: i16| !s.contains(v));
    } else {
        let pre = s.drop_last();
        lemma_first_occurrences_props(pre);
        assert forall|v: i16| s.contains(v) implies (pre.contains(v) || v == s.last()) by {
            let k = choose|k: int| 0 <= k < s.len() && s[k] == v;
            if k < pre.len() {
                assert(pre[k] == v);
            }
        }
        assert forall|v: i16| pre.contains(v) implies s.contains(v) by {
            let k = choose|k: int| 0 <= k < pre.len() && pre[k] == v;
            assert(s[k] == v);
        }
        assert(s.contains(s.last())) by {
            assert(s[s.len() - 1] == s.last());
        }
    }
}

/// `ascending_missing` holds exactly the values of `lo..hi` that `s` lacks,
/// each once.
pub proof fn lemma_ascending_missing_props(s: Seq<i16>, lo: int, hi: int)
    requires
        0 <= lo,
        hi <= 0x8000,
    ensures
        ascending_missing(s, lo, hi).no_duplicates(),
        forall|k: int|
            0 <= k < ascending_missing(s, lo, hi).len() ==> lo <= #[trigger] ascending_missing(
                s,
                lo,
                hi,
            )[k] < hi && !s.contains(ascending_missing(s, lo, hi)[k]),
        forall|v: int|
            lo <= v < hi && !s.contains(v as i16) ==> #[trigger] ascending_missing(
                s,
                lo,
                hi,
            ).contains(v as i16),
    decreases hi - lo,
{
    broadcast use vstd::seq_lib::lemma_seq_contains_after_push;

    if hi <= lo {
    } else {
        lemma_ascending_missing_props(s, lo, hi - 1);
        let pre = ascending_missing(s, lo, hi - 1);
        if !s.contains((hi - 1) as i16) {
            assert(!pre.contains((hi - 1) as i16));
            assert forall|v: int|
                lo <= v < hi && !s.contains(v as i16) implies #[trigger] ascending_missing(
                s,
                lo,
                hi,
            ).contains(v as i16) by {
                if v < hi - 1 {
                    assert(pre.contains(v as i16));
                }
            }
        }
    }
}

/// The keyed alphabet layout shared by both fill functions: the distinct key
/// values in order of first appearance, followed by the values they leave out.
fn fill_alphabet(key: &[i16], alphabet_size: usize, continue_from_key: bool) -> (r: Vec<i16>)
    requires
        0 < alphabet_size <= 0x8000,
        forall|j: int| 0 <= j < key@.len() ==> 0 <= #[trigger] key@[j] < alphabet_size,
        continue_from_key ==> key@.len() > 0,
    ensures
        ({
            let n = alphabet_size as int;
            let vs = if continue_from_key && key@.len() > 0 {
                first_occurrences(key@).last() as int
            } else {
                0
            };
            r@ == first_occurrences(key@) + ascending_missing(key@, vs, n) + ascending_missing(
                key@,
                0,
                vs,
            )
        }),
        is_permutation_of(r@, alphabet_size as int),
{
    broadcast use vstd::seq_lib::lemma_seq_contains_after_push, vstd::seq_lib::lemma_seq_concat_contains_all_elements;

    let n = alphabet_size;
    let mut existing: Vec<bool> = Vec::new();
    let mut k: usize = 0;
    while k < n
        invariant
            k <= n,
            existing.len() == k,
            forall|v: int| 0 <= v < k ==> !(#[trigger] existing@[v]),
        decreases n - k,
    {
        existing.push(false);
        k = k + 1;
    }
    let mut result: Vec<i16> = Vec::new();
    let last = push_key_prefix(key, &mut result, &mut existing);
    let ghost firsts = first_occurrences(key@);
    proof {
        lemma_first_occurrences_props(key@);
    }
    let val_start: usize = if continue_from_key {
        last as usize
    } else {
        0
    };
    proof {
        if continue_from_key {
            assert(key@.contains(firsts.last()));
        }
    }
    push_missing_range(&mut result, &existing, val_start, n, Ghost(key@));
    let ghost mid = ascending_missing(key@, val_start as int, n as int);
    push_missing_range(&mut result, &existing, 0, val_start, Ghost(key@));
    let ghost low = ascending_missing(key@, 0, val_start as int);
    proof {
        assert(result@ == (firsts + mid) + low);
        assert(result@ =~= firsts + mid + low);
        lemma_ascending_missing_props(key@, val_start as int, n as int);
        lemma_ascending_missing_props(key@, 0, val_start as int);
        assert(result@.no_duplicates()) by {
            assert forall|i: int, j: int|
                0 <= i < result@.len() && 0 <= j < result@.len() && i != j implies result@[i]
                != result@[j] by {
                let f = firsts.len() as int;
                let m = mid.len() as int;
                if i < f {
                    assert(result@[i] == firsts[i]);
                    assert(key@.contains(firsts[i]));
                } else if i < f + m {
                    assert(result@[i] == mid[i - f]);
                } else {
                    assert(result@[i] == low[i - f - m]);
                }
                if j < f {
                    assert(result@[j] == firsts[j]);
                    assert(key@.contains(firsts[j]));
                } else if j < f + m {
                    assert(result@[j] == mid[j - f]);
                } else {
                    assert(result@[j] == low[j - f - m]);
                }
            }
        }
        assert(forall|p: int| 0 <= p < result@.len() ==> 0 <= #[trigger] result@[p] < n as int);
        assert forall|v: int| 0 <= v < n as int implies #[trigger] result@.contains(v as i16) by {
            if key@.contains(v as i16) {
                assert(firsts.contains(v as i16));
                let k0 = choose|k0: int| 0 <= k0 < firsts.len() && firsts[k0] == v as i16;
                assert(result@[k0] == v as i16);
            } else if v >= val_start as int {
                assert(mid.contains(v as i16));
                let k0 = choose|k0: int| 0 <= k0 < mid.len() && mid[k0] == v as i16;
                assert(result@[firsts.len() + k0] == v as i16);
            } else {
                assert(low.contains(v as i16));
                let k0 = choose|k0: int| 0 <= k0 < low.len() && low[k0] == v as i16;
                assert(result@[firsts.len() + mid.len() + k0] == v as i16);
            }
        }
        lemma_distinct_cover_len(result@, n as int);
    }
    result
}

/// Returns a vector of size `alphabet_size` containing all the values in the
/// range `0..alphabet_size`, keyed by the slice `key`: the distinct key
/// values come first, then the values continuing upward from the last key
/// value, wrapping around to the smallest.
pub fn fill_alphabet_continue(key: &[i16], alphabet_size: usize) -> (r: Vec<i16>)
    requires
        0 < alphabet_size <= 0x8000,
        key@.len() > 0,
        forall|j: int| 0 <= j < key@.len() ==> 0 <= #[trigger] key@[j] < alphabet_size,
    ensures
        r@ == first_occurrences(key@) + ascending_missing(
            key@,
            first_occurrences(key@).last() as int,
            alphabet_size as int,
        ) + ascending_missing(key@, 0, first_occurrences(key@).last() as int),
        is_permutation_of(r@, alphabet_size as int),
{
    fill_alphabet(key, alphabet_size, true)
}

/// Returns a vector of size `alphabet_size` containing all the values in the
/// range `0..alphabet_size`, keyed by the slice `key`: the distinct key
/// values come first, then every value they leave out in ascending order.
pub fn fill_alphabet_from_start(key: &[i16], alphabet_size: usize) -> (r: Vec<i16>)
    requires
        0 < alphabet_size <= 0x8000,
        forall|j: int| 0 <= j < key@.len() ==> 0 <= #[trigger] key@[j] < alphabet_size,
    ensures
        r@ == first_occurrences(key@) + ascending_missing(key@, 0, alphabet_size as int),
        is_permutation_of(r@, alphabet_size as int),
{
    let r = fill_alphabet(key, alphabet_size, false);
    proof {
        assert(ascending_missing(key@, 0, 0) =~= Seq::<i16>::empty());
        assert(r@ =~= first_occurrences(key@) + ascending_missing(key@, 0, alphabet_size as int));
    }
    r
}

/// Fills a `Vec<i16>` with uniformly drawn values below `max_exclusive`.
pub fn fill_random_array(arr: &mut Vec<i16>, max_exclusive: i16)
    requires
        max_exclusive > 0,
    ensures
        final(arr).len() == old(arr).len(),
        forall|k: int| 0 <= k < final(arr).len() ==> 0 <= #[trigger] final(arr)@[k] < max_exclusive,
{
    let n = arr.len();
    let mut k: usize = 0;
    while k < n
        invariant
            k <= n,
            arr.len() == n,
            max_exclusive > 0,
            forall|p: int| 0 <= p < k ==> 0 <= #[trigger] arr@[p] < max_exclusive,
        decreases n - k,
    {
        let v = crate::rng::rand_i16_range(0, max_exclusive);
        arr.set(k, v);
        k = k + 1;
    }
}

/// Shuffles the elements of a vector: the result holds the same elements,
/// with the same multiplicities, in an order drawn from the process-wide
/// random number generator.
pub fn shuffle(arr: &mut Vec<i16>)
    ensures
        final(arr).len() == old(arr).len(),
        final(arr)@.to_multiset() == old(arr)@.to_multiset(),
{
    let n = arr.len();
    let mut i: usize = 0;
    while i < n
        invariant
            i <= n,
            arr.len() == n,
            arr@.to_multiset() == old(arr)@.to_multiset(),
        decreases n - i,
    {
        let pos = crate::rng::rand_usize_below(n);
        let ghost before = arr@;
        let a = arr[i];
        let b = arr[pos];
        arr.set(i, b);
        arr.set(pos, a);
        proof {
            lemma_swap_preserves_multiset(before, i as int, pos as int);
            assert(arr@ == before.update(i as int, before[pos as int]).update(
                pos as int,
                before[i as int],
            ));
        }
        i = i + 1;
    }
}

/// Bezout's identity: some integer combination of `a` and `b` reaches their
/// greatest common divisor.
proof fn lemma_bezout(a: int, b: int)
    requires
        a >= 0,
        b >= 0,
    ensures
        exists|x: int, y: int| #[trigger] (a * x + b * y) == spec_gcd(a, b),
    decreases b,
{
    if b <= 0 {
        assert(a * 1 + b * 0 == spec_gcd(a, b)) by (nonlinear_arith)
            requires
                b == 0 || b <= 0,
                spec_gcd(a, b) == a,
        ;
    } else {
        vstd::arithmetic::div_mod::lemma_mod_division_less_than_divisor(a, b);
        vstd::arithmetic::div_mod::lemma_mod_decreases(a as nat, b as nat);
        lemma_bezout(b, a % b);
        let (x0, y0) = choose|x0: int, y0: int| #[trigger] (b * x0 + (a % b) * y0) == spec_gcd(
            b,
            a % b,
        );
        let q = a / b;
        vstd::arithmetic::div_mod::lemma_fundamental_div_mod(a, b);
        assert(a * y0 + b * (x0 - q * y0) == spec_gcd(a, b)) by (nonlinear_arith)
            requires
                b * x0 + (a % b) * y0 == spec_gcd(b, a % b),
                a % b == a - b * (a / b),
                q == a / b,
                spec_gcd(a, b) == spec_gcd(b, a % b),
        ;
    }
}

/// The greatest common divisor of non-negative numbers is non-negative.
proof fn lemma_gcd_nonneg(a: int, b: int)
    requires
        a >= 0,
        b >= 0,
    ensures
        spec_gcd(a, b) >= 0,
    decreases b,
{
    if b > 0 {
        vstd::arithmetic::div_mod::lemma_mod_division_less_than_divisor(a, b);
        vstd::arithmetic::div_mod::lemma_mod_decreases(a as nat, b as nat);
        lemma_gcd_nonneg(b, a % b);
    }
}

/// Performs the extended Euclidean algorithm on `a` and `b`, returning
/// `(g, x, y)` with `g` the greatest common divisor and `a*x + b*y == g`.
/// The coefficient `x` is reported in the range `0..b` when `b > 0`.
pub fn extended_gcd(a: i32, b: i32) -> (r: (i32, i32, i32))
    requires
        0 <= a <= 0x7FFF,
        0 <= b <= 0x7FFF,
    ensures
        r.0 == spec_gcd(a as int, b as int),
        a * r.1 + b * r.2 == r.0,
{
    if b == 0 {
        proof {
            assert(a * 1 + b * 0 == a) by (nonlinear_arith)
                requires
                    b == 0,
            ;
        }
        return (a, 1, 0);
    }
    let g = gcd(a as i16, b as i16) as i32;
    proof {
        lemma_gcd_nonneg(a as int, b as int);
    }
    let mut x: i32 = 0;
    while x < b
        invariant
            0 <= x <= b,
            0 < b <= 0x7FFF,
            0 <= a <= 0x7FFF,
            0 <= g <= 0x7FFF,
            g == spec_gcd(a as int, b as int),
            forall|k: int| 0 <= k < x ==> #[trigger] (a * k) % (b as int) != (g as int) % (b as int),
        decreases b - x,
    {
        proof {
            assert(0 <= a * x <= 0x8000 * 0x8000) by (nonlinear_arith)
                requires
                    0 <= a <= 0x8000,
                    0 <= x <= 0x8000,
            ;
        }
        let p = a * x;
        if p % b == g % b {
            let t = g - p;
            proof {
                vstd::arithmetic::div_mod::lemma_sub_mod_noop(g as int, p as int, b as int);
                assert((g - p) % (b as int) == 0) by {
                    vstd::arithmetic::div_mod::lemma_mod_self_0(b as int);
                    vstd::arithmetic::div_mod::lemma_sub_mod_noop(g as int, p as int, b as int);
                    assert((g % b - p % b) % (b as int) == (g - p) % (b as int));
                    assert(g % b - p % b == 0);
                    vstd::arithmetic::div_mod::lemma_small_mod(0, b as nat);
                }
                vstd::arithmetic::div_mod::lemma_fundamental_div_mod(t as int, b as int);
            }
            let ghost q = (t as int) / (b as int);
            proof {
                assert(t as int == (b as int) * q) by {
                    vstd::arithmetic::div_mod::lemma_fundamental_div_mod(t as int, b as int);
                }
                assert(-(t as int) == (b as int) * (-q)) by (nonlinear_arith)
                    requires
                        t as int == (b as int) * q,
                ;
                vstd::arithmetic::div_mod::lemma_div_multiples_vanish(-q, b as int);
                assert(-0x40000000 <= q <= 0x40000000) by (nonlinear_arith)
                    requires
                        t as int == (b as int) * q,
                        1 <= b as int <= 0x7FFF,
                        -0x40000000 <= t as int <= 0x40000000,
                ;
            }
            let y = if t >= 0 {
                t / b
            } else {
                -((-t) / b)
            };
            proof {
                assert(y == q);
                assert(a * x + b * y == g) by (nonlinear_arith)
                    requires
                        t == g - p,
                        p == a * x,
                        t as int == (b as int) * q,
                        y == q,
                ;
            }
            return (g, x, y);
        }
        x = x + 1;
    }
    proof {
        lemma_bezout(a as int, b as int);
        let (x0, y0) = choose|x0: int, y0: int| #[trigger] ((a as int) * x0 + (b as int) * y0)
            == spec_gcd(a as int, b as int);
        let xr = x0 % (b as int);
        vstd::arithmetic::div_mod::lemma_mod_division_less_than_divisor(x0, b as int);
        assert((a * xr) % (b as int) == (g as int) % (b as int)) by {
            vstd::arithmetic::div_mod::lemma_mul_mod_noop_right(a as int, x0, b as int);
            assert((a as int) * x0 == g - (b as int) * y0) by (nonlinear_arith)
                requires
                    (a as int) * x0 + (b as int) * y0 == g as int,
            ;
            assert(((a as int) * x0) % (b as int) == (g as int) % (b as int)) by {
                vstd::arithmetic::div_mod::lemma_mod_multiples_vanish(-y0, g as int, b as int);
                assert((b as int) * -y0 + g == g - (b as int) * y0) by (nonlinear_arith);
            }
        }
        assert(false);
    }
    (g, 0, 0)
}

} // verus!
