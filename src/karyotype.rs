use vstd::prelude::*;
use crate::calculations::{count_of, tally};

verus! {

/// Number of accepted records on each reference: one entry per reference id
/// that occurs, unplaced records (negative ids) left out; the order of the
/// entries is left open.
pub fn reference_counts(tids: &[i32]) -> (r: Vec<(i32, usize)>)
    ensures
        forall|m: int|
            0 <= m < r@.len() ==> #[trigger] r@[m].0 >= 0 && tids@.contains(r@[m].0) && r@[m].1
                == count_of(tids@, r@[m].0),
        forall|m: int, p: int| 0 <= m < p < r@.len() ==> #[trigger] r@[m].0 != #[trigger] r@[p].0,
        forall|k: i32|
            k >= 0 && tids@.contains(k) ==> exists|m: int| 0 <= m < r@.len() && #[trigger] r@[m].0 == k,
{
    let all = tally(tids);
    let mut r: Vec<(i32, usize)> = Vec::new();
    let ghost mut src: Seq<int> = Seq::empty();
    let mut j: usize = 0;
    while j < all.len()
        invariant
            j <= all@.len(),
            src.len() == r@.len(),
            forall|m: int| 0 <= m < r@.len() ==> 0 <= #[trigger] src[m] < j && r@[m] == all@[src[m]] && r@[m].0 >= 0,
            forall|m: int, p: int| 0 <= m < p < r@.len() ==> #[trigger] src[m] < #[trigger] src[p],
            forall|q: int| 0 <= q < j && (#[trigger] all@[q]).0 >= 0 ==> exists|m: int| 0 <= m < r@.len() && #[trigger] src[m] == q,
        decreases all.len() - j,
    {
        let entry = all[j];
        if entry.0 >= 0 {
            r.push(entry);
            proof {
                let old_src = src;
                src = src.push(j as int);
                assert forall|q: int| 0 <= q < j + 1 && (#[trigger] all@[q]).0 >= 0 implies exists|m: int|
                    0 <= m < r@.len() && #[trigger] src[m] == q by {
                    if q == j {
                        assert(src[r@.len() - 1] == q);
                    } else {
                        let m = choose|m: int| 0 <= m < old_src.len() && #[trigger] old_src[m] == q;
                        assert(src[m] == q);
                    }
                }
            }
        }
        j = j + 1;
    }
    proof {
        assert forall|m: int, p: int| 0 <= m < p < r@.len() implies #[trigger] r@[m].0 != #[trigger] r@[p].0 by {
            assert(src[m] < src[p]);
            assert(all@[src[m]].0 != all@[src[p]].0);
        }
        assert forall|m: int| 0 <= m < r@.len() implies #[trigger] r@[m].0 >= 0 && tids@.contains(r@[m].0) && r@[m].1
            == count_of(tids@, r@[m].0) by {
            assert(0 <= src[m] < all@.len());
            assert(tids@.contains(all@[src[m]].0));
        }
        assert forall|k: i32| k >= 0 && tids@.contains(k) implies exists|m: int| 0 <= m < r@.len() && #[trigger] r@[m].0 == k by {
            let q = choose|q: int| 0 <= q < all@.len() && #[trigger] all@[q].0 == k;
            assert(all@[q].0 >= 0);
            let m = choose|m: int| 0 <= m < r@.len() && #[trigger] src[m] == q;
            assert(r@[m].0 == k);
        }
    }
    r
}

/// A reference with its number of accepted records and its length.
pub type RefEntry = (i32, usize, u64);

/// Whether the read density (records per base) of `a` is at most that of `b`.
pub open spec fn density_le(a: RefEntry, b: RefEntry) -> bool {
    a.1 * b.2 <= b.1 * a.2
}

/// Whether `s` is in ascending order of read density.
pub open spec fn by_density(s: Seq<RefEntry>) -> bool {
    forall|i: int, j: int| 0 <= i < j < s.len() ==> density_le(#[trigger] s[i], #[trigger] s[j])
}

/// Whether every reference has a positive length.
pub open spec fn lengths_positive(s: Seq<RefEntry>) -> bool {
    forall|i: int| 0 <= i < s.len() ==> #[trigger] s[i].2 > 0
}

fn density_at_most(a: RefEntry, b: RefEntry) -> (r: bool)
    ensures
        r == density_le(a, b),
{
    assert((a.1 as int) * (b.2 as int) <= 0xffff_ffff_ffff_ffff * 0xffff_ffff_ffff_ffffint) by (nonlinear_arith)
        requires
            a.1 <= 0xffff_ffff_ffff_ffffint,
            b.2 <= 0xffff_ffff_ffff_ffffint,
            0 <= a.1,
            0 <= b.2,
    ;
    assert((b.1 as int) * (a.2 as int) <= 0xffff_ffff_ffff_ffff * 0xffff_ffff_ffff_ffffint) by (nonlinear_arith)
        requires
            b.1 <= 0xffff_ffff_ffff_ffffint,
            a.2 <= 0xffff_ffff_ffff_ffffint,
            0 <= b.1,
            0 <= a.2,
    ;
    (a.1 as u128) * (b.2 as u128) <= (b.1 as u128) * (a.2 as u128)
}

proof fn lemma_density_le_transitive(a: RefEntry, b: RefEntry, c: RefEntry)
    requires
        density_le(a, b),
        density_le(b, c),
        b.2 > 0,
    ensures
        density_le(a, c),
{
    let (x, y, z) = (a.1 as int, b.1 as int, c.1 as int);
    let (p, q, r) = (a.2 as int, b.2 as int, c.2 as int);
    assert(x * r <= z * p) by (nonlinear_arith)
        requires
            x * q <= y * p,
            y * r <= z * q,
            q > 0,
            p >= 0,
            r >= 0,
    ;
}

/// The references in ascending order of read density; references of equal
/// density in any order.
pub fn sort_by_density(entries: &Vec<RefEntry>) -> (r: Vec<RefEntry>)
    requires
        lengths_positive(entries@),
    ensures
        r@.to_multiset() == entries@.to_multiset(),
        by_density(r@),
        lengths_positive(r@),
{
    broadcast use vstd::seq_lib::to_multiset_insert, vstd::seq_lib::group_to_multiset_ensures;

    let mut r: Vec<RefEntry> = Vec::new();
    let mut i: usize = 0;
    assert(entries@.subrange(0, 0) =~= Seq::<RefEntry>::empty());
    assert(r@ =~= Seq::<RefEntry>::empty());
    while i < entries.len()
        invariant
            i <= entries@.len(),
            lengths_positive(entries@),
            r@.to_multiset() == entries@.subrange(0, i as int).to_multiset(),
            by_density(r@),
            lengths_positive(r@),
        decreases entries.len() - i,
    {
        let x = entries[i];
        let mut k: usize = 0;
        while k < r.len() && density_at_most(r[k], x)
            invariant
                k <= r@.len(),
                forall|j: int| 0 <= j < k ==> density_le(#[trigger] r@[j], x),
            decreases r.len() - k,
        {
            k = k + 1;
        }
        let ghost before = r@;
        r.insert(k, x);
        proof {
            before.insert_ensures(k as int, x);
            assert(entries@.subrange(0, i as int + 1) =~= entries@.subrange(0, i as int).push(x));
            vstd::seq_lib::to_multiset_insert(before, k as int, x);
            entries@.subrange(0, i as int).to_multiset_ensures();
            assert(r@.to_multiset() == before.to_multiset().insert(x));
            assert(entries@.subrange(0, i as int).push(x).to_multiset() == entries@.subrange(0, i as int).to_multiset().insert(x));
            assert(x.2 > 0);
            assert forall|p: int, q: int| 0 <= p < q < r@.len() implies density_le(#[trigger] r@[p], #[trigger] r@[q]) by {
                if q < k {
                    assert(r@[p] == before[p] && r@[q] == before[q]);
                } else if q == k {
                    assert(r@[p] == before[p]);
                } else if p == k {
                    assert(r@[q] == before[q - 1]);
                    assert(!density_le(before[k as int], x));
                    assert(density_le(x, before[k as int])) by (nonlinear_arith)
                        requires
                            !(before[k as int].1 * x.2 <= x.1 * before[k as int].2),
                    ;
                    if q - 1 > k {
                        assert(density_le(before[k as int], before[q - 1]));
                        lemma_density_le_transitive(x, before[k as int], before[q - 1]);
                    }
                } else if p < k {
                    assert(r@[p] == before[p] && r@[q] == before[q - 1]);
                } else {
                    assert(r@[p] == before[p - 1] && r@[q] == before[q - 1]);
                }
            }
            assert forall|j: int| 0 <= j < r@.len() implies #[trigger] r@[j].2 > 0 by {
                if j < k {
                    assert(r@[j] == before[j]);
                } else if j > k {
                    assert(r@[j] == before[j - 1]);
                }
            }
        }
        i = i + 1;
    }
    assert(entries@.subrange(0, entries@.len() as int) =~= entries@);
    r
}

/// The density of `e` relative to that of `m`, as numerator and denominator.
pub open spec fn normalized(e: RefEntry, m: RefEntry) -> (int, int) {
    (e.1 * m.2, e.2 * m.1)
}

/// Whether the fraction `a` is at most the fraction `b` (positive denominators).
pub open spec fn fraction_le(a: (int, int), b: (int, int)) -> bool {
    a.0 * b.1 <= b.0 * a.1
}

/// Normalizing the density-ordered references by the density of the middle
/// one keeps their order and gives exactly one at the middle: with an odd
/// number of references, the median of the normalized densities is one.
pub proof fn lemma_normalized_median_is_one(s: Seq<RefEntry>)
    requires
        by_density(s),
        lengths_positive(s),
        s.len() % 2 == 1,
        s[(s.len() - 1) / 2].1 > 0,
    ensures
        ({
            let m = s[(s.len() - 1) / 2];
            &&& normalized(m, m).0 == normalized(m, m).1
            &&& normalized(m, m).1 > 0
            &&& forall|i: int, j: int|
                0 <= i < j < s.len() ==> fraction_le(
                    #[trigger] normalized(s[i], m),
                    #[trigger] normalized(s[j], m),
                )
        }),
{
    let m = s[(s.len() - 1) / 2];
    assert(m.2 > 0);
    assert(normalized(m, m).1 > 0) by (nonlinear_arith)
        requires
            m.2 > 0,
            m.1 > 0,
    ;
    assert forall|i: int, j: int| 0 <= i < j < s.len() implies fraction_le(
        #[trigger] normalized(s[i], m),
        #[trigger] normalized(s[j], m),
    ) by {
        assert(density_le(s[i], s[j]));
        let (ci, li, cj, lj) = (s[i].1 as int, s[i].2 as int, s[j].1 as int, s[j].2 as int);
        let (cm, lm) = (m.1 as int, m.2 as int);
        assert((ci * lm) * (lj * cm) <= (cj * lm) * (li * cm)) by (nonlinear_arith)
            requires
                ci * lj <= cj * li,
                lm >= 0,
                cm >= 0,
        ;
    }
}

} // verus!
