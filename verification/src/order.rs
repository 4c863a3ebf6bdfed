//! Ascending order of small unsigned numbers.
use vstd::prelude::*;
use vstd::relations::{sorted_by, total_ordering};

verus! {

pub open spec fn le_u32() -> spec_fn(u32, u32) -> bool {
    |a: u32, b: u32| a <= b
}

pub open spec fn le_u8() -> spec_fn(u8, u8) -> bool {
    |a: u8, b: u8| a <= b
}

/// `s` in ascending order (what `sort_unstable` leaves).
pub open spec fn sorted_u32(s: Seq<u32>) -> Seq<u32> {
    s.sort_by(le_u32())
}

pub open spec fn sorted_u8(s: Seq<u8>) -> Seq<u8> {
    s.sort_by(le_u8())
}

pub proof fn lemma_le_u32_total()
    ensures
        total_ordering(le_u32()),
{
}

pub proof fn lemma_le_u8_total()
    ensures
        total_ordering(le_u8()),
{
}

/// The values of `v` in ascending order.
pub fn sort_u32(v: &[u32]) -> (r: Vec<u32>)
    ensures
        r@ == sorted_u32(v@),
        r@.len() == v@.len(),
{
    let mut r: Vec<u32> = Vec::new();
    let mut i: usize = 0;
    proof {
        assert(r@ =~= v@.take(0));
    }
    while i < v.len()
        invariant
            i <= v@.len(),
            sorted_by(r@, le_u32()),
            r@.to_multiset() == v@.take(i as int).to_multiset(),
        decreases v@.len() - i,
    {
        let x = v[i];
        let mut p: usize = 0;
        while p < r.len() && r[p] <= x
            invariant
                p <= r@.len(),
                sorted_by(r@, le_u32()),
                forall|k: int| 0 <= k < p ==> r@[k] <= x,
            decreases r@.len() - p,
        {
            p = p + 1;
        }
        let ghost old_r = r@;
        r.insert(p, x);
        assert(r@ == old_r.insert(p as int, x));
        assert(sorted_by(r@, le_u32())) by {
            assert forall|a: int, b: int| 0 <= a < b < r@.len() implies #[trigger] le_u32()(r@[a], r@[b]) by {
                if b < p {
                } else if a > p {
                    assert(le_u32()(old_r[a - 1], old_r[b - 1]));
                } else if a == p {
                    if b - 1 > p {
                        assert(le_u32()(old_r[p as int], old_r[b - 1]));
                    }
                } else if b == p {
                } else {
                    assert(le_u32()(old_r[a], old_r[b - 1]));
                }
            }
        }
        assert(v@.take(i + 1) =~= v@.take(i as int).push(x));
        proof {
            vstd::seq_lib::to_multiset_insert(old_r, p as int, x);
            vstd::seq_lib::to_multiset_build(v@.take(i as int), x);
        }
        i = i + 1;
    }
    proof {
        assert(v@.take(v@.len() as int) =~= v@);
        lemma_le_u32_total();
        v@.lemma_sort_by_ensures(le_u32());
        vstd::seq_lib::lemma_sorted_unique(r@, v@.sort_by(le_u32()), le_u32());
        vstd::seq_lib::to_multiset_len(r@);
        vstd::seq_lib::to_multiset_len(v@);
    }
    r
}

/// The values of `v` in ascending order.
pub fn sort_u8(v: &[u8]) -> (r: Vec<u8>)
    ensures
        r@ == sorted_u8(v@),
        r@.len() == v@.len(),
{
    let mut r: Vec<u8> = Vec::new();
    let mut i: usize = 0;
    proof {
        assert(r@ =~= v@.take(0));
    }
    while i < v.len()
        invariant
            i <= v@.len(),
            sorted_by(r@, le_u8()),
            r@.to_multiset() == v@.take(i as int).to_multiset(),
        decreases v@.len() - i,
    {
        let x = v[i];
        let mut p: usize = 0;
        while p < r.len() && r[p] <= x
            invariant
                p <= r@.len(),
                sorted_by(r@, le_u8()),
                forall|k: int| 0 <= k < p ==> r@[k] <= x,
            decreases r@.len() - p,
        {
            p = p + 1;
        }
        let ghost old_r = r@;
        r.insert(p, x);
        assert(r@ == old_r.insert(p as int, x));
        assert(sorted_by(r@, le_u8())) by {
            assert forall|a: int, b: int| 0 <= a < b < r@.len() implies #[trigger] le_u8()(r@[a], r@[b]) by {
                if b < p {
                } else if a > p {
                    assert(le_u8()(old_r[a - 1], old_r[b - 1]));
                } else if a == p {
                    if b - 1 > p {
                        assert(le_u8()(old_r[p as int], old_r[b - 1]));
                    }
                } else if b == p {
                } else {
                    assert(le_u8()(old_r[a], old_r[b - 1]));
                }
            }
        }
        assert(v@.take(i + 1) =~= v@.take(i as int).push(x));
        proof {
            vstd::seq_lib::to_multiset_insert(old_r, p as int, x);
            vstd::seq_lib::to_multiset_build(v@.take(i as int), x);
        }
        i = i + 1;
    }
    proof {
        assert(v@.take(v@.len() as int) =~= v@);
        lemma_le_u8_total();
        v@.lemma_sort_by_ensures(le_u8());
        vstd::seq_lib::lemma_sorted_unique(r@, v@.sort_by(le_u8()), le_u8());
        vstd::seq_lib::to_multiset_len(r@);
        vstd::seq_lib::to_multiset_len(v@);
    }
    r
}

/// Sorting a duplicate-free sequence gives the same values in strictly ascending order.
pub proof fn lemma_sorted_distinct(t: Seq<u32>)
    requires
        t.no_duplicates(),
    ensures
        sorted_u32(t).len() == t.len(),
        forall|i: int, j: int| 0 <= i < j < t.len() ==> sorted_u32(t)[i] < sorted_u32(t)[j],
        forall|i: int| 0 <= i < t.len() ==> t.contains(#[trigger] sorted_u32(t)[i]),
{
    let v = sorted_u32(t);
    lemma_le_u32_total();
    t.lemma_sort_by_ensures(le_u32());
    t.lemma_multiset_has_no_duplicates();
    assert forall|x: u32| v.to_multiset().contains(x) implies v.to_multiset().count(x) == 1 by {}
    v.lemma_multiset_has_no_duplicates_conv();
    broadcast use vstd::seq_lib::group_to_multiset_ensures;
    assert(v.len() == t.len()) by {
        assert(v.len() == v.to_multiset().len());
        assert(t.len() == t.to_multiset().len());
    }
    assert forall|i: int| 0 <= i < t.len() implies t.contains(#[trigger] v[i]) by {
        assert(v.contains(v[i]));
        assert(v.to_multiset().count(v[i]) > 0);
    }
    assert forall|i: int, j: int| 0 <= i < j < t.len() implies v[i] < v[j] by {
        assert(le_u32()(v[i], v[j]));
    }
}

/// Sorting a duplicate-free sequence of bytes gives the same values in strictly
/// ascending order.
pub proof fn lemma_sorted_distinct_u8(t: Seq<u8>)
    requires
        t.no_duplicates(),
    ensures
        sorted_u8(t).len() == t.len(),
        forall|i: int, j: int| 0 <= i < j < t.len() ==> sorted_u8(t)[i] < sorted_u8(t)[j],
        forall|i: int| 0 <= i < t.len() ==> t.contains(#[trigger] sorted_u8(t)[i]),
{
    let v = sorted_u8(t);
    lemma_le_u8_total();
    t.lemma_sort_by_ensures(le_u8());
    t.lemma_multiset_has_no_duplicates();
    assert forall|x: u8| v.to_multiset().contains(x) implies v.to_multiset().count(x) == 1 by {}
    v.lemma_multiset_has_no_duplicates_conv();
    broadcast use vstd::seq_lib::group_to_multiset_ensures;
    assert(v.len() == t.len()) by {
        assert(v.len() == v.to_multiset().len());
        assert(t.len() == t.to_multiset().len());
    }
    assert forall|i: int| 0 <= i < t.len() implies t.contains(#[trigger] v[i]) by {
        assert(v.contains(v[i]));
        assert(v.to_multiset().count(v[i]) > 0);
    }
    assert forall|i: int, j: int| 0 <= i < j < t.len() implies v[i] < v[j] by {
        assert(le_u8()(v[i], v[j]));
    }
}

} // verus!
