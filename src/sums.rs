use vstd::prelude::*;

verus! {

/// Sum of the first `k` values of `s`, each read as an integer through `f`.
pub open spec fn sum_by<T>(s: Seq<T>, f: spec_fn(T) -> int, k: int) -> int
    decreases k,
{
    if k <= 0 || s.len() == 0 {
        0
    } else {
        sum_by(s, f, k - 1) + f(s[k - 1])
    }
}

/// A 128-bit value as an integer.
pub open spec fn of_u128() -> spec_fn(u128) -> int {
    |x: u128| x as int
}

/// A 64-bit value as an integer.
pub open spec fn of_u64() -> spec_fn(u64) -> int {
    |x: u64| x as int
}

/// A count as an integer.
pub open spec fn of_usize() -> spec_fn(usize) -> int {
    |x: usize| x as int
}

/// A signed 64-bit value as an integer.
pub open spec fn of_i64() -> spec_fn(i64) -> int {
    |x: i64| x as int
}

/// An integer as itself.
pub open spec fn of_int() -> spec_fn(int) -> int {
    |x: int| x
}

/// Sum of the first `k` lengths.
pub open spec fn prefix_sum(s: Seq<u128>, k: int) -> int {
    sum_by(s, of_u128(), k)
}

/// Sum of the first `k` values.
pub open spec fn sum_u64(s: Seq<u64>, k: int) -> int {
    sum_by(s, of_u64(), k)
}

/// Sum of the first `k` counts.
pub open spec fn sum_usize(s: Seq<usize>, k: int) -> int {
    sum_by(s, of_usize(), k)
}

/// Sum of the first `k` signed values.
pub open spec fn sum_i64(s: Seq<i64>, k: int) -> int {
    sum_by(s, of_i64(), k)
}

/// Sum of the first `k` integers.
pub open spec fn sum_ints(s: Seq<int>, k: int) -> int {
    sum_by(s, of_int(), k)
}

/// Sums over sequences that agree on their first `n` values are equal.
pub proof fn lemma_sum_by_same<T>(a: Seq<T>, b: Seq<T>, f: spec_fn(T) -> int, n: int)
    requires
        0 <= n <= a.len(),
        n <= b.len(),
        forall|j: int| 0 <= j < n ==> a[j] == b[j],
    ensures
        sum_by(a, f, n) == sum_by(b, f, n),
    decreases n,
{
    if n > 0 {
        lemma_sum_by_same(a, b, f, n - 1);
    }
}

/// Replacing one value changes the sum by the difference.
pub proof fn lemma_sum_by_update<T>(s: Seq<T>, f: spec_fn(T) -> int, n: int, i: int, v: T)
    requires
        0 <= i < n <= s.len(),
    ensures
        sum_by(s.update(i, v), f, n) == sum_by(s, f, n) - f(s[i]) + f(v),
    decreases n,
{
    if n - 1 > i {
        lemma_sum_by_update(s, f, n - 1, i, v);
    } else {
        lemma_sum_by_same(s, s.update(i, v), f, n - 1);
    }
}

/// A sum of zero terms is zero.
pub proof fn lemma_sum_by_zeros<T>(s: Seq<T>, f: spec_fn(T) -> int, n: int)
    requires
        0 <= n <= s.len(),
        forall|j: int| 0 <= j < n ==> f(#[trigger] s[j]) == 0,
    ensures
        sum_by(s, f, n) == 0,
    decreases n,
{
    if n > 0 {
        lemma_sum_by_zeros(s, f, n - 1);
    }
}

/// Appending a value adds it to the sum.
pub proof fn lemma_sum_by_push<T>(s: Seq<T>, f: spec_fn(T) -> int, x: T)
    ensures
        sum_by(s.push(x), f, s.len() as int + 1) == sum_by(s, f, s.len() as int) + f(x),
{
    lemma_sum_by_same(s, s.push(x), f, s.len() as int);
}

/// With no negative terms, a sum grows with `k` and bounds each of its terms.
pub proof fn lemma_sum_by_bounded<T>(s: Seq<T>, f: spec_fn(T) -> int, j: int, k: int)
    requires
        0 <= j <= k <= s.len(),
        forall|x: T| #[trigger] f(x) >= 0,
    ensures
        0 <= sum_by(s, f, j) <= sum_by(s, f, k),
        forall|i: int| 0 <= i < k ==> f(#[trigger] s[i]) <= sum_by(s, f, k),
    decreases k,
{
    if k > 0 {
        if j < k {
            lemma_sum_by_bounded(s, f, j, k - 1);
        } else {
            lemma_sum_by_bounded(s, f, k - 1, k - 1);
        }
        assert(f(s[k - 1]) >= 0);
    }
}

} // verus!
