use std::cmp::Ordering;
use vstd::prelude::*;
use vstd::std_specs::cmp::OrdSpec;
use vstd::relations::{sorted_by, total_ordering};
use rayon::slice::ParallelSliceMut;

verus! {

/// Whether `s` is in ascending order under the type's `Ord`.
pub open spec fn sorted_by_cmp<T: Ord>(s: Seq<T>) -> bool {
    forall|i: int, j: int| 0 <= i < j < s.len() ==> s[i].cmp_spec(&s[j]) != Ordering::Greater
}

/// Relies on rayon's `ParallelSliceMut::par_sort_unstable`: it reorders the
/// elements in place so that they ascend under `Ord` (equal elements in any order).
#[verifier::external_body]
pub(crate) fn par_sort_ascending<T: Ord + Send>(v: &mut Vec<T>)
    requires
        vstd::laws_cmp::obeys_cmp::<T>(),
    ensures
        final(v)@.to_multiset() == old(v)@.to_multiset(),
        sorted_by_cmp(final(v)@),
{
    v.par_sort_unstable();
}

/// The order "not greater than" on lengths.
pub open spec fn le_u128() -> spec_fn(u128, u128) -> bool {
    |a: u128, b: u128| a <= b
}

/// The order "not smaller than" on lengths.
pub open spec fn ge_u128() -> spec_fn(u128, u128) -> bool {
    |a: u128, b: u128| a >= b
}

/// The order "not greater than" on signed lengths.
pub open spec fn le_i64() -> spec_fn(i64, i64) -> bool {
    |a: i64, b: i64| a <= b
}

/// The order "not smaller than" on signed lengths.
pub open spec fn ge_i64() -> spec_fn(i64, i64) -> bool {
    |a: i64, b: i64| a >= b
}

/// The order "not greater than" on counts.
pub open spec fn le_usize() -> spec_fn(usize, usize) -> bool {
    |a: usize, b: usize| a <= b
}

pub proof fn lemma_integer_orders_total()
    ensures
        total_ordering(le_u128()),
        total_ordering(ge_u128()),
        total_ordering(le_i64()),
        total_ordering(ge_i64()),
        total_ordering(le_usize()),
{
}

proof fn lemma_reverse_multiset<A>(s: Seq<A>)
    ensures
        s.reverse().to_multiset() == s.to_multiset(),
    decreases s.len(),
{
    broadcast use vstd::seq_lib::group_to_multiset_ensures;
    if s.len() > 0 {
        let t = s.drop_first();
        lemma_reverse_multiset(t);
        assert(s.reverse() =~= t.reverse().push(s.first()));
        assert(s =~= seq![s.first()] + t);
        vstd::seq_lib::lemma_seq_union_to_multiset_commutative(seq![s.first()], t);
        assert(t.reverse().push(s.first()).to_multiset() =~= t.reverse().to_multiset().insert(s.first()));
        assert(t + seq![s.first()] =~= t.push(s.first()));
    }
}

/// The values of `v` in reverse order.
fn reversed<T: Copy>(v: &Vec<T>) -> (r: Vec<T>)
    ensures
        r@ == v@.reverse(),
{
    let mut r: Vec<T> = Vec::with_capacity(v.len());
    let mut i: usize = v.len();
    while i > 0
        invariant
            i <= v.len(),
            r@ =~= v@.subrange(i as int, v@.len() as int).reverse(),
        decreases i,
    {
        i = i - 1;
        r.push(v[i]);
        assert(v@.subrange(i as int, v@.len() as int).reverse() =~= v@.subrange(
            i as int + 1,
            v@.len() as int,
        ).reverse().push(v@[i as int]));
    }
    assert(v@.subrange(0, v@.len() as int) =~= v@);
    r
}

/// Sorts lengths in ascending order.
pub fn sort_u128_ascending(v: &mut Vec<u128>)
    ensures
        final(v)@ == old(v)@.sort_by(le_u128()),
{
    broadcast use vstd::laws_cmp::group_laws_cmp;

    let ghost s = v@;
    par_sort_ascending(v);
    proof {
        lemma_integer_orders_total();
        s.lemma_sort_by_ensures(le_u128());
        assert(sorted_by(v@, le_u128())) by {
            assert forall|i: int, j: int| 0 <= i < j < v@.len() implies #[trigger] le_u128()(v@[i], v@[j]) by {
                assert(v@[i].cmp_spec(&v@[j]) != Ordering::Greater);
            }
        }
        vstd::seq_lib::lemma_sorted_unique(v@, s.sort_by(le_u128()), le_u128());
    }
}

/// Sorts lengths in descending order.
pub fn sort_u128_descending(v: &mut Vec<u128>)
    ensures
        final(v)@ == old(v)@.sort_by(ge_u128()),
{
    let ghost s = v@;
    sort_u128_ascending(v);
    let r = reversed(v);
    proof {
        lemma_integer_orders_total();
        s.lemma_sort_by_ensures(le_u128());
        s.lemma_sort_by_ensures(ge_u128());
        lemma_reverse_multiset(v@);
        assert(sorted_by(r@, ge_u128())) by {
            assert forall|i: int, j: int| 0 <= i < j < r@.len() implies #[trigger] ge_u128()(r@[i], r@[j]) by {
                assert(le_u128()(v@[v@.len() - 1 - j], v@[v@.len() - 1 - i]));
            }
        }
        vstd::seq_lib::lemma_sorted_unique(r@, s.sort_by(ge_u128()), ge_u128());
    }
    *v = r;
}

/// The lexicographic order on phase records (reference id, start, end, phase set).
pub open spec fn le_record() -> spec_fn((i32, i64, i64, u32), (i32, i64, i64, u32)) -> bool {
    |a: (i32, i64, i64, u32), b: (i32, i64, i64, u32)|
        a.0 < b.0 || (a.0 == b.0 && (a.1 < b.1 || (a.1 == b.1 && (a.2 < b.2 || (a.2 == b.2
            && a.3 <= b.3)))))
}

pub proof fn lemma_record_order_total()
    ensures
        total_ordering(le_record()),
{
    let r = le_record();
    assert(vstd::relations::reflexive(r));
    assert(vstd::relations::antisymmetric(r)) by {
        assert forall|a: (i32, i64, i64, u32), b: (i32, i64, i64, u32)| #[trigger]
            r(a, b) && #[trigger] r(b, a) implies a == b by {
            assert(a.0 == b.0 && a.1 == b.1 && a.2 == b.2 && a.3 == b.3);
        }
    }
    assert(vstd::relations::transitive(r));
    assert(vstd::relations::strongly_connected(r));
}

/// Sorts phase records in ascending lexicographic order.
pub fn sort_records_ascending(v: &mut Vec<(i32, i64, i64, u32)>)
    ensures
        final(v)@ == old(v)@.sort_by(le_record()),
{
    broadcast use vstd::laws_cmp::group_laws_cmp;

    let ghost s = v@;
    par_sort_ascending(v);
    proof {
        lemma_record_order_total();
        s.lemma_sort_by_ensures(le_record());
        assert(sorted_by(v@, le_record())) by {
            assert forall|i: int, j: int| 0 <= i < j < v@.len() implies #[trigger] le_record()(
                v@[i],
                v@[j],
            ) by {
                assert(v@[i].cmp_spec(&v@[j]) != Ordering::Greater);
            }
        }
        vstd::seq_lib::lemma_sorted_unique(v@, s.sort_by(le_record()), le_record());
    }
}

/// Sorts counts in ascending order.
pub fn sort_usize_ascending(v: &mut Vec<usize>)
    ensures
        final(v)@ == old(v)@.sort_by(le_usize()),
{
    broadcast use vstd::laws_cmp::group_laws_cmp;

    let ghost s = v@;
    par_sort_ascending(v);
    proof {
        lemma_integer_orders_total();
        s.lemma_sort_by_ensures(le_usize());
        assert(sorted_by(v@, le_usize())) by {
            assert forall|i: int, j: int| 0 <= i < j < v@.len() implies #[trigger] le_usize()(v@[i], v@[j]) by {
                assert(v@[i].cmp_spec(&v@[j]) != Ordering::Greater);
            }
        }
        vstd::seq_lib::lemma_sorted_unique(v@, s.sort_by(le_usize()), le_usize());
    }
}

/// Sorts signed lengths in descending order.
pub fn sort_i64_descending(v: &mut Vec<i64>)
    ensures
        final(v)@ == old(v)@.sort_by(ge_i64()),
{
    broadcast use vstd::laws_cmp::group_laws_cmp;

    let ghost s = v@;
    par_sort_ascending(v);
    let r = reversed(v);
    proof {
        lemma_integer_orders_total();
        s.lemma_sort_by_ensures(ge_i64());
        lemma_reverse_multiset(v@);
        assert(sorted_by(r@, ge_i64())) by {
            assert forall|i: int, j: int| 0 <= i < j < r@.len() implies #[trigger] ge_i64()(r@[i], r@[j]) by {
                assert(v@[v@.len() - 1 - j].cmp_spec(&v@[v@.len() - 1 - i]) != Ordering::Greater);
            }
        }
        vstd::seq_lib::lemma_sorted_unique(r@, s.sort_by(ge_i64()), ge_i64());
    }
    *v = r;
}

} // verus!
