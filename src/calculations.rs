use std::collections::HashMap;
use vstd::prelude::*;
use crate::sums::{lemma_sum_by_bounded, lemma_sum_by_same, of_u128, prefix_sum};

verus! {

/// Sum of all values of `s`.
pub open spec fn total(s: Seq<u128>) -> int {
    prefix_sum(s, s.len() as int)
}

/// Whether the running sum up to and including index `k` exceeds the fraction
/// `num / den` of `bases`.
pub open spec fn crosses(s: Seq<u128>, k: int, bases: int, num: int, den: int) -> bool {
    prefix_sum(s, k + 1) * den > bases * num
}

/// The value at which the scan from index `i` first crosses the threshold, or
/// the last value when it never does.
pub open spec fn nx_from(s: Seq<u128>, i: int, bases: int, num: int, den: int) -> int
    decreases s.len() - i,
{
    if i >= s.len() - 1 {
        s.last() as int
    } else if crosses(s, i, bases, num, den) {
        s[i] as int
    } else {
        nx_from(s, i + 1, bases, num, den)
    }
}

/// The generalised N-value ("Nx") of `s` for the fraction `num / den` of `bases`;
/// zero for an empty sequence.
pub open spec fn nx(s: Seq<u128>, bases: int, num: int, den: int) -> int {
    if s.len() == 0 {
        0
    } else {
        nx_from(s, 0, bases, num, den)
    }
}

/// `floor(bases * num / den)`, computed without overflow.
fn scaled_threshold(bases: u128, num: u64, den: u64) -> (t: u128)
    requires
        0 < den,
        num <= den,
    ensures
        t as int == (bases as int * num as int) / den as int,
{
    let d = den as u128;
    let n = num as u128;
    let q = bases / d;
    let r = bases % d;
    assert(bases as int == q * d + r) by {
        vstd::arithmetic::div_mod::lemma_fundamental_div_mod(bases as int, d as int);
    }
    assert(q * n <= q * d) by (nonlinear_arith)
        requires
            n <= d,
            0 <= q,
    ;
    assert(r * n < d * n + 1) by (nonlinear_arith)
        requires
            0 <= r < d,
            0 <= n,
    ;
    assert(d * n <= 0xffff_ffff_ffff_ffff * 0xffff_ffff_ffff_ffffu128) by (nonlinear_arith)
        requires
            d <= 0xffff_ffff_ffff_ffff,
            n <= 0xffff_ffff_ffff_ffff,
    ;
    let a = q * n;
    let b = r * n / d;
    assert(b <= r) by {
        assert(r * n <= r * d) by (nonlinear_arith)
            requires
                n <= d,
                0 <= r,
        ;
        vstd::arithmetic::div_mod::lemma_div_is_ordered((r * n) as int, (r * d) as int, d as int);
        vstd::arithmetic::div_mod::lemma_div_multiples_vanish(r as int, d as int);
    }
    assert(bases as int * num as int == (q * n) * d + r * n) by (nonlinear_arith)
        requires
            bases as int == q * d + r,
            n == num,
    ;
    assert((bases as int * num as int) / d as int == q * n + (r * n) / (d as int)) by {
        vstd::arithmetic::div_mod::lemma_hoist_over_denominator(
            (r * n) as int,
            (q * n) as int,
            d as nat,
        );
    }
    a + b
}

/// The generalised N-value ("Nx") of `lengths`, expected in descending order: the
/// first value at which the running sum exceeds the fraction `num / den` of
/// `nb_bases_total`, or the last value when the sum never does. An empty input
/// gives zero.
pub fn get_n(lengths: &[u128], nb_bases_total: u128, num: u64, den: u64) -> (r: u128)
    requires
        0 < den,
        num <= den,
        total(lengths@) <= u128::MAX,
    ensures
        r == nx(lengths@, nb_bases_total as int, num as int, den as int),
        lengths@.len() == 0 ==> r == 0,
{
    let len = lengths.len();
    if len == 0 {
        return 0;
    }
    let threshold = scaled_threshold(nb_bases_total, num, den);
    let ghost s = lengths@;
    let ghost bases = nb_bases_total as int;
    let mut acc: u128 = 0;
    let mut i: usize = 0;
    while i + 1 < len
        invariant
            s == lengths@,
            bases == nb_bases_total as int,
            len == s.len(),
            0 <= i < len,
            acc == prefix_sum(s, i as int),
            threshold as int == (bases * num as int) / den as int,
            total(s) <= u128::MAX,
            0 < den,
            nx(s, bases, num as int, den as int) == nx_from(s, i as int, bases, num as int, den as int),
        decreases len - i,
    {
        proof {
            lemma_sum_by_bounded(s, of_u128(), i as int + 1, len as int);
        }
        acc = acc + lengths[i];
        proof {
            let x = bases * num as int;
            let d = den as int;
            let a = acc as int;
            assert((a > x / d) == (a * d > x)) by {
                vstd::arithmetic::div_mod::lemma_fundamental_div_mod(x, d);
                assert(0 <= x % d < d) by {
                    vstd::arithmetic::div_mod::lemma_mod_bound(x, d);
                }
                assert((a > x / d) == (a * d > x)) by (nonlinear_arith)
                    requires
                        x == d * (x / d) + x % d,
                        0 <= x % d < d,
                        d > 0,
                ;
            }
        }
        assert(acc == prefix_sum(s, i + 1));
        if acc > threshold {
            assert(crosses(s, i as int, bases, num as int, den as int));
            assert(nx_from(s, i as int, bases, num as int, den as int) == s[i as int]);
            return lengths[i];
        }
        i = i + 1;
    }
    lengths[len - 1]
}

/// Whether `s` never increases from one index to the next.
pub open spec fn descending(s: Seq<u128>) -> bool {
    forall|i: int, j: int| 0 <= i < j < s.len() ==> s[i] >= s[j]
}

proof fn lemma_nx_from_member(s: Seq<u128>, i: int, bases: int, num: int, den: int)
    requires
        0 <= i < s.len(),
    ensures
        exists|j: int| i <= j < s.len() && nx_from(s, i, bases, num, den) == s[j] as int,
    decreases s.len() - i,
{
    if i >= s.len() - 1 {
        assert(nx_from(s, i, bases, num, den) == s[s.len() - 1] as int);
    } else if crosses(s, i, bases, num, den) {
        assert(nx_from(s, i, bases, num, den) == s[i] as int);
    } else {
        lemma_nx_from_member(s, i + 1, bases, num, den);
    }
}

proof fn lemma_nx_from_antitone(
    s: Seq<u128>,
    i: int,
    bases: int,
    num1: int,
    den1: int,
    num2: int,
    den2: int,
)
    requires
        descending(s),
        0 <= i < s.len(),
        0 <= bases,
        0 < den1,
        0 < den2,
        num1 * den2 <= num2 * den1,
    ensures
        nx_from(s, i, bases, num2, den2) <= nx_from(s, i, bases, num1, den1),
    decreases s.len() - i,
{
    if i >= s.len() - 1 {
    } else if crosses(s, i, bases, num1, den1) {
        lemma_nx_from_member(s, i, bases, num2, den2);
    } else {
        let p = prefix_sum(s, i + 1);
        lemma_sum_by_bounded(s, of_u128(), i + 1, i + 1);
        assert(!crosses(s, i, bases, num2, den2)) by {
            assert(p * den2 <= bases * num2) by (nonlinear_arith)
                requires
                    p * den1 <= bases * num1,
                    num1 * den2 <= num2 * den1,
                    0 <= bases,
                    0 < den1,
                    0 < den2,
            ;
        }
        lemma_nx_from_antitone(s, i + 1, bases, num1, den1, num2, den2);
    }
}

/// For a descending sequence of positive lengths and fractions in (0, 1], the
/// N-value taken over the sequence's own total is one of the sequence's values
/// (when there is any), and it never increases when the fraction grows.
pub proof fn lemma_nx_member_and_antitone(
    s: Seq<u128>,
    num1: int,
    den1: int,
    num2: int,
    den2: int,
)
    requires
        descending(s),
        forall|i: int| 0 <= i < s.len() ==> s[i] > 0,
        0 < num1 <= den1,
        0 < num2 <= den2,
        num1 * den2 <= num2 * den1,
    ensures
        s.len() > 0 ==> exists|j: int|
            0 <= j < s.len() && nx(s, total(s), num1, den1) == s[j] as int,
        nx(s, total(s), num2, den2) <= nx(s, total(s), num1, den1),
{
    if s.len() > 0 {
        lemma_sum_by_bounded(s, of_u128(), s.len() as int, s.len() as int);
        lemma_nx_from_member(s, 0, total(s), num1, den1);
        lemma_nx_from_antitone(s, 0, total(s), num1, den1, num2, den2);
    }
}

/// The N-value of an empty sequence is zero, whatever the fraction.
pub proof fn lemma_nx_empty(bases: int, num: int, den: int)
    ensures
        nx(Seq::<u128>::empty(), bases, num, den) == 0,
{
}

/// Sum of the lengths above 25,000 among the first `k` values of `s`.
pub open spec fn long_yield(s: Seq<u128>, k: int) -> int
    decreases k,
{
    if k <= 0 || s.len() == 0 {
        0
    } else {
        long_yield(s, k - 1) + if s[k - 1] > 25000 {
            s[k - 1] as int
        } else {
            0
        }
    }
}

proof fn lemma_long_yield_bounded(s: Seq<u128>, k: int)
    requires
        0 <= k <= s.len(),
    ensures
        0 <= long_yield(s, k) <= prefix_sum(s, k),
    decreases k,
{
    if k > 0 {
        lemma_long_yield_bounded(s, k - 1);
    }
}

/// The total number of bases over all lengths, and over the lengths above 25,000.
pub fn calculate_data_yield(lengths: &[u128]) -> (r: (u128, u128))
    requires
        total(lengths@) <= u128::MAX,
    ensures
        r.0 == total(lengths@),
        r.1 == long_yield(lengths@, lengths@.len() as int),
{
    let mut all: u128 = 0;
    let mut long: u128 = 0;
    let mut i: usize = 0;
    while i < lengths.len()
        invariant
            i <= lengths@.len(),
            all == prefix_sum(lengths@, i as int),
            long == long_yield(lengths@, i as int),
            total(lengths@) <= u128::MAX,
        decreases lengths.len() - i,
    {
        proof {
            lemma_sum_by_bounded(lengths@, of_u128(), i as int + 1, lengths@.len() as int);
            lemma_long_yield_bounded(lengths@, i as int + 1);
        }
        let len = lengths[i];
        all = all + len;
        if len > 25000 {
            long = long + len;
        }
        i = i + 1;
    }
    (all, long)
}

/// The two central elements of `array`: the same element twice when the length
/// is odd. The median of a sorted sequence is their mean.
pub fn central_pair<T: Copy>(array: &[T]) -> (r: (T, T))
    requires
        array@.len() > 0,
    ensures
        r.0 == array@[(array@.len() - 1) / 2],
        r.1 == array@[array@.len() as int / 2],
{
    let n = array.len();
    (array[(n - 1) / 2], array[n / 2])
}

/// The median of a sorted sequence of counts, rounded down when it falls
/// between two values.
pub open spec fn median_floor(s: Seq<usize>) -> int {
    (s[(s.len() - 1) / 2] + s[s.len() as int / 2]) / 2
}

/// The median of `array`, expected in ascending order: its central element for
/// an odd length, the mean of its two central elements (rounded down) for an
/// even one.
pub fn median_splice(array: &[usize]) -> (r: usize)
    requires
        array@.len() > 0,
    ensures
        r == median_floor(array@),
{
    let (a, b) = central_pair(array);
    a / 2 + b / 2 + (a % 2 + b % 2) / 2
}

/// Number of occurrences of `k` among the first `n` values of `s`.
pub open spec fn occurrences(s: Seq<i32>, k: i32, n: int) -> int
    decreases n,
{
    if n <= 0 || s.len() == 0 {
        0
    } else {
        occurrences(s, k, n - 1) + if s[n - 1] == k {
            1int
        } else {
            0
        }
    }
}

/// Number of occurrences of `k` in `s`.
pub open spec fn count_of(s: Seq<i32>, k: i32) -> int {
    occurrences(s, k, s.len() as int)
}

proof fn lemma_occurrences_absent(s: Seq<i32>, k: i32, n: int)
    requires
        0 <= n <= s.len(),
        forall|j: int| 0 <= j < n ==> s[j] != k,
    ensures
        occurrences(s, k, n) == 0,
    decreases n,
{
    if n > 0 {
        lemma_occurrences_absent(s, k, n - 1);
    }
}

/// Each distinct value of `keys` once, with its number of occurrences; the
/// order of the entries is left open.
pub fn tally(keys: &[i32]) -> (r: Vec<(i32, usize)>)
    ensures
        forall|m: int| 0 <= m < r@.len() ==> keys@.contains(#[trigger] r@[m].0) && r@[m].1 == count_of(keys@, r@[m].0),
        forall|m: int, p: int| 0 <= m < p < r@.len() ==> #[trigger] r@[m].0 != #[trigger] r@[p].0,
        forall|k: i32| keys@.contains(k) ==> exists|m: int| 0 <= m < r@.len() && #[trigger] r@[m].0 == k,
{
    broadcast use vstd::std_specs::hash::group_hash_axioms;

    let mut counts: HashMap<i32, usize> = HashMap::new();
    let mut order: Vec<i32> = Vec::new();
    let mut i: usize = 0;
    while i < keys.len()
        invariant
            i <= keys@.len(),
            forall|k: i32| #[trigger]
                counts@.contains_key(k) <==> (exists|j: int| 0 <= j < i && keys@[j] == k),
            forall|k: i32| #[trigger] counts@.contains_key(k) <==> order@.contains(k),
            forall|k: i32| counts@.contains_key(k) ==> #[trigger] counts@[k] == occurrences(keys@, k, i as int),
            forall|k: i32| counts@.contains_key(k) ==> #[trigger] counts@[k] <= i,
            forall|k: i32| !counts@.contains_key(k) ==> #[trigger] occurrences(keys@, k, i as int) == 0,
            forall|m: int, p: int| 0 <= m < p < order@.len() ==> order@[m] != order@[p],
        decreases keys.len() - i,
    {
        let k = keys[i];
        let ghost before = counts@;
        let ghost before_order = order@;
        let seen = counts.get(&k);
        match seen {
            Some(c) => {
                assert(before.contains_key(k) && *c == before[k]);
                let c1 = *c + 1;
                counts.insert(k, c1);
            },
            None => {
                counts.insert(k, 1);
                order.push(k);
            },
        }
        proof {
            assert(counts@ == before.insert(k, counts@[k]));
            assert(occurrences(keys@, k, i + 1) == occurrences(keys@, k, i as int) + 1);
            assert(counts@[k] == occurrences(keys@, k, i + 1));
            assert forall|x: i32| #[trigger]
                counts@.contains_key(x) <==> (exists|j: int| 0 <= j < i + 1 && keys@[j] == x) by {
                if counts@.contains_key(x) && x != k {
                    assert(before.contains_key(x));
                    let j = choose|j: int| 0 <= j < i && keys@[j] == x;
                    assert(0 <= j < i + 1 && keys@[j] == x);
                }
                if x == k {
                    assert(keys@[i as int] == x);
                }
            }
            assert forall|x: i32| #[trigger] counts@.contains_key(x) <==> order@.contains(x) by {
                if before.contains_key(k) {
                    assert(order@ == before_order);
                } else {
                    assert(order@ == before_order.push(k));
                    if x == k {
                        assert(order@[order@.len() - 1] == k);
                    }
                    if before_order.contains(x) {
                        let m = choose|m: int| 0 <= m < before_order.len() && before_order[m] == x;
                        assert(order@[m] == x);
                    }
                    if order@.contains(x) && x != k {
                        let m = choose|m: int| 0 <= m < order@.len() && order@[m] == x;
                        assert(before_order[m] == x);
                    }
                }
            }
            assert forall|x: i32| counts@.contains_key(x) implies #[trigger] counts@[x]
                == occurrences(keys@, x, i + 1) by {
                if x != k {
                    assert(occurrences(keys@, x, i + 1) == occurrences(keys@, x, i as int));
                }
            }
            assert forall|x: i32| !counts@.contains_key(x) implies #[trigger] occurrences(
                keys@,
                x,
                i + 1,
            ) == 0 by {
                assert(x != k);
                assert(!before.contains_key(x));
                assert(occurrences(keys@, x, i + 1) == occurrences(keys@, x, i as int));
            }
        }
        i = i + 1;
    }
    let mut result: Vec<(i32, usize)> = Vec::new();
    let mut j: usize = 0;
    while j < order.len()
        invariant
            j <= order@.len(),
            i == keys@.len(),
            result@.len() == j,
            forall|k: i32| #[trigger] counts@.contains_key(k) <==> (exists|jj: int| 0 <= jj < i && keys@[jj] == k),
            forall|k: i32| #[trigger] counts@.contains_key(k) <==> order@.contains(k),
            forall|k: i32| counts@.contains_key(k) ==> #[trigger] counts@[k] == occurrences(keys@, k, i as int),
            forall|m: int, p: int| 0 <= m < p < order@.len() ==> order@[m] != order@[p],
            forall|m: int| 0 <= m < j ==> #[trigger] result@[m] == (order@[m], counts@[order@[m]]),
        decreases order.len() - j,
    {
        let k = order[j];
        assert(counts@.contains_key(k)) by {
            assert(order@.contains(k)) by {
                assert(order@[j as int] == k);
            }
        }
        let c = *counts.get(&k).unwrap();
        result.push((k, c));
        j = j + 1;
    }
    proof {
        assert forall|m: int| 0 <= m < result@.len() implies keys@.contains(#[trigger] result@[m].0)
            && result@[m].1 == count_of(keys@, result@[m].0) by {
            let k = order@[m];
            assert(order@.contains(k));
            assert(counts@.contains_key(k));
            assert(exists|w: int| 0 <= w < i && keys@[w] == k);
            let w = choose|w: int| 0 <= w < i && keys@[w] == k;
            assert(keys@[w] == k);
            assert(result@[m] == (order@[m], counts@[order@[m]]));
        }
        assert forall|k: i32| keys@.contains(k) implies exists|m: int| 0 <= m < result@.len() && #[trigger] result@[m].0 == k by {
            let w = choose|w: int| 0 <= w < keys@.len() && keys@[w] == k;
            assert(counts@.contains_key(k));
            let m = choose|m: int| 0 <= m < order@.len() && order@[m] == k;
            assert(result@[m].0 == k);
        }
    }
    result
}

/// A most frequent value of `keys`: it occurs in `keys`, and no value occurs
/// more often. Which of several equally frequent values is chosen is left open.
pub fn modal_bucket(keys: &[i32]) -> (r: i32)
    requires
        keys@.len() > 0,
    ensures
        keys@.contains(r),
        forall|k: i32| count_of(keys@, k) <= count_of(keys@, r),
{
    let counts = tally(keys);
    proof {
        assert(keys@.contains(keys@[0]));
    }
    let mut best = counts[0].0;
    let mut best_count = counts[0].1;
    let mut j: usize = 1;
    while j < counts.len()
        invariant
            1 <= j <= counts@.len(),
            keys@.contains(best),
            best_count == count_of(keys@, best),
            forall|m: int| 0 <= m < counts@.len() ==> keys@.contains(#[trigger] counts@[m].0) && counts@[m].1 == count_of(keys@, counts@[m].0),
            forall|m: int| 0 <= m < j ==> count_of(keys@, #[trigger] counts@[m].0) <= best_count,
        decreases counts.len() - j,
    {
        let (k, c) = counts[j];
        if c > best_count {
            best = k;
            best_count = c;
        }
        j = j + 1;
    }
    proof {
        assert forall|k: i32| count_of(keys@, k) <= count_of(keys@, best) by {
            if keys@.contains(k) {
                let m = choose|m: int| 0 <= m < counts@.len() && #[trigger] counts@[m].0 == k;
                assert(count_of(keys@, counts@[m].0) <= best_count);
            } else {
                lemma_occurrences_absent(keys@, k, keys@.len() as int);
            }
        }
    }
    best
}

proof fn lemma_total_remove(t: Seq<u128>, j: int)
    requires
        0 <= j < t.len(),
    ensures
        total(t) == total(t.remove(j)) + t[j],
    decreases t.len(),
{
    let n = t.len() as int;
    if j == n - 1 {
        lemma_sum_by_same(t, t.remove(j), of_u128(), n - 1);
    } else {
        lemma_total_remove(t.drop_last(), j);
        lemma_sum_by_same(t, t.drop_last(), of_u128(), n - 1);
        assert(t.remove(j).drop_last() =~= t.drop_last().remove(j));
        lemma_sum_by_same(t.remove(j), t.remove(j).drop_last(), of_u128(), n - 2);
        assert(t.remove(j)[n - 2] == t[n - 1]);
    }
}

/// Two sequences that hold the same values, in any order, have the same total.
pub proof fn lemma_total_permutation(s: Seq<u128>, t: Seq<u128>)
    requires
        s.to_multiset() == t.to_multiset(),
    ensures
        total(s) == total(t),
    decreases s.len(),
{
    broadcast use vstd::seq_lib::group_to_multiset_ensures;

    vstd::seq_lib::to_multiset_len(s);
    vstd::seq_lib::to_multiset_len(t);
    if s.len() > 0 {
        let x = s.last();
        assert(s.to_multiset().count(x) > 0);
        assert(t.contains(x));
        let j = choose|j: int| 0 <= j < t.len() && t[j] == x;
        let t2 = t.remove(j);
        let s2 = s.drop_last();
        assert(s =~= s2.push(x));
        assert(t2.to_multiset() =~= t.to_multiset().remove(x)) by {
            t.to_multiset_ensures();
            assert(t =~= t.subrange(0, j) + seq![x] + t.subrange(j + 1, t.len() as int));
            assert(t2 =~= t.subrange(0, j) + t.subrange(j + 1, t.len() as int));
            vstd::seq_lib::lemma_multiset_commutative(t.subrange(0, j) + seq![x], t.subrange(j + 1, t.len() as int));
            vstd::seq_lib::lemma_multiset_commutative(t.subrange(0, j), seq![x]);
            vstd::seq_lib::lemma_multiset_commutative(t.subrange(0, j), t.subrange(j + 1, t.len() as int));
        }
        assert(s2.to_multiset() =~= s.to_multiset().remove(x));
        lemma_total_permutation(s2, t2);
        lemma_total_remove(t, j);
        lemma_sum_by_same(s, s2, of_u128(), s.len() - 1);
    }
}

} // verus!
