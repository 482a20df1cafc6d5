//! In-place, adaptive bubble sort for any totally ordered element type:
//! each pass bubbles the largest remaining element upward, and everything
//! past the last swap of a pass is already in final position.

use core::cmp::Ordering;
use vstd::laws_cmp::obeys_cmp;
use vstd::prelude::*;
use vstd::std_specs::cmp::OrdSpec;
use vstd::std_specs::cmp::PartialEqSpec;
use vstd::std_specs::cmp::PartialOrdSpec;

verus! {

broadcast use vstd::seq_lib::group_to_multiset_ensures;

/// `x` sorts at or before `y`: comparing puts `x` not after `y`.
pub open spec fn le<T: PartialOrd>(x: T, y: T) -> bool {
    x.partial_cmp_spec(&y) matches Some(Ordering::Less | Ordering::Equal)
}

/// Comparing equal is interchangeable with either side of a strict
/// comparison. This holds of every order that `Ord` implementations are
/// documented to provide; it is stated separately because `obeys_cmp` does
/// not spell it out.
pub open spec fn eq_respects_lt<T: PartialOrd>() -> bool {
    &&& forall|x: T, y: T, z: T|
        x.partial_cmp_spec(&y) == Some(Ordering::Equal) && #[trigger] y.partial_cmp_spec(&z)
            == Some(Ordering::Less) ==> #[trigger] x.partial_cmp_spec(&z) == Some(Ordering::Less)
    &&& forall|x: T, y: T, z: T|
        x.partial_cmp_spec(&y) == Some(Ordering::Less) && #[trigger] y.partial_cmp_spec(&z)
            == Some(Ordering::Equal) ==> #[trigger] x.partial_cmp_spec(&z) == Some(Ordering::Less)
}

/// Every element sorts at or before every later one.
pub open spec fn sorted<T: PartialOrd>(s: Seq<T>) -> bool {
    forall|i: int, j: int| 0 <= i <= j < s.len() ==> #[trigger] le(s[i], s[j])
}

/// The order facts the sorting proof leans on, derived once from
/// `obeys_cmp` and `eq_respects_lt`.
proof fn lemma_le_facts<T: Ord>()
    requires
        obeys_cmp::<T>(),
        eq_respects_lt::<T>(),
    ensures
        T::obeys_partial_cmp_spec(),
        forall|x: T| #[trigger] le(x, x),
        forall|x: T, y: T| !(#[trigger] le(x, y)) <==> x.partial_cmp_spec(&y) == Some(
            Ordering::Greater,
        ),
        forall|x: T, y: T| !(#[trigger] le(x, y)) ==> #[trigger] le(y, x),
        forall|x: T, y: T, z: T| #[trigger] le(x, y) && #[trigger] le(y, z) ==> le(x, z),
{
    reveal(vstd::laws_cmp::obeys_cmp_partial_ord);
    reveal(vstd::laws_cmp::obeys_cmp_ord);
    reveal(vstd::laws_cmp::obeys_partial_cmp_spec_properties);
    reveal(vstd::laws_eq::obeys_eq_spec_properties);
    assert forall|x: T, y: T| !(#[trigger] le(x, y)) implies x.partial_cmp_spec(&y) == Some(
        Ordering::Greater,
    ) by {
        assert(x.partial_cmp_spec(&y) == Some(x.cmp_spec(&y)));
    }
    assert forall|x: T| #[trigger] le(x, x) by {
        assert(x.partial_cmp_spec(&x) == Some(x.cmp_spec(&x)));
        if x.partial_cmp_spec(&x) == Some(Ordering::Less) {
            assert(x.partial_cmp_spec(&x) == Some(Ordering::Greater));
        }
        if x.partial_cmp_spec(&x) == Some(Ordering::Greater) {
            assert(x.partial_cmp_spec(&x) == Some(Ordering::Less));
        }
    }
    assert forall|x: T, y: T| !(#[trigger] le(x, y)) implies #[trigger] le(y, x) by {
        assert(y.partial_cmp_spec(&x) == Some(y.cmp_spec(&x)));
    }
    assert forall|x: T, y: T, z: T| #[trigger] le(x, y) && #[trigger] le(y, z) implies le(
        x,
        z,
    ) by {
        assert(x.partial_cmp_spec(&z) == Some(x.cmp_spec(&z)));
        if x.partial_cmp_spec(&y) == Some(Ordering::Equal) && y.partial_cmp_spec(&z) == Some(
            Ordering::Equal,
        ) {
            assert(x.eq_spec(&y) && y.eq_spec(&z));
            assert(x.eq_spec(&z));
            assert(x.partial_cmp_spec(&z) == Some(Ordering::Equal));
        }
    }
}

/// A chain of adjacent comparisons inside `[lo, hi)` orders any two
/// positions of that range.
proof fn lemma_adjacent_implies_pairwise<T: Ord>(s: Seq<T>, lo: int, hi: int, i: int, j: int)
    requires
        obeys_cmp::<T>(),
        eq_respects_lt::<T>(),
        0 <= lo,
        hi <= s.len(),
        forall|k: int| lo < k < hi ==> #[trigger] le(s[k - 1], s[k]),
        lo <= i <= j < hi,
    ensures
        le(s[i], s[j]),
    decreases j - i,
{
    lemma_le_facts::<T>();
    if i < j {
        lemma_adjacent_implies_pairwise(s, lo, hi, i, j - 1);
        assert(le(s[j - 1], s[j]));
    }
}

/// Swapping two positions leaves the multiset of elements unchanged.
proof fn lemma_swap_preserves_multiset<T>(s: Seq<T>, a: int, b: int)
    requires
        0 <= a < s.len(),
        0 <= b < s.len(),
    ensures
        s.update(a, s[b]).update(b, s[a]).to_multiset() == s.to_multiset(),
{
    if a == b {
        assert(s.update(a, s[b]).update(b, s[a]) =~= s);
    } else {
        let s1 = s.update(a, s[b]);
        assert(s1[b] == s[b]);
        assert(s.to_multiset().contains(s[a]));
        assert(s1.to_multiset().contains(s1[b]));
        assert(s1.update(b, s[a]).to_multiset() =~= s.to_multiset());
    }
}

/// Relies on `<[T]>::swap` of std: exchanges the elements at the two given
/// indices; panics only when an index is out of bounds, which the
/// precondition rules out.
pub assume_specification<Elem>[ <[Elem]>::swap ](s: &mut [Elem], a: usize, b: usize)
    requires
        a < old(s)@.len(),
        b < old(s)@.len(),
    ensures
        final(s)@ == old(s)@.update(a as int, old(s)@[b as int]).update(
            b as int,
            old(s)@[a as int],
        ),
;

/// Sorts the slice in place. The result holds the same elements (as a
/// multiset) in nondecreasing order of `partial_cmp`.
pub fn bubble_sort<T: Ord>(arr: &mut [T])
    requires
        obeys_cmp::<T>(),
        eq_respects_lt::<T>(),
    ensures
        final(arr)@.len() == old(arr)@.len(),
        final(arr)@.to_multiset() == old(arr)@.to_multiset(),
        sorted(final(arr)@),
{
    proof {
        lemma_le_facts::<T>();
    }
    if arr.len() <= 1 {
        return ;
    }
    let ghost orig = arr@;
    let mut n: usize = arr.len();
    loop
        invariant
            obeys_cmp::<T>(),
            eq_respects_lt::<T>(),
            1 <= n <= arr@.len(),
            arr@.len() == orig.len(),
            arr@.to_multiset() == orig.to_multiset(),
            forall|i: int, j: int| n <= i <= j < arr@.len() ==> #[trigger] le(arr@[i], arr@[j]),
            forall|i: int, j: int| 0 <= i < n <= j < arr@.len() ==> #[trigger] le(arr@[i], arr@[j]),
        ensures
            arr@.len() == orig.len(),
            arr@.to_multiset() == orig.to_multiset(),
            sorted(arr@),
        decreases n,
    {
        proof {
            lemma_le_facts::<T>();
        }
        let mut new_n: usize = 0;
        let mut i: usize = 1;
        while i < n
            invariant
                obeys_cmp::<T>(),
                eq_respects_lt::<T>(),
                1 <= i <= n <= arr@.len(),
                arr@.len() == orig.len(),
                arr@.to_multiset() == orig.to_multiset(),
                new_n < i,
                forall|ii: int, j: int|
                    n <= ii <= j < arr@.len() ==> #[trigger] le(arr@[ii], arr@[j]),
                forall|ii: int, j: int|
                    0 <= ii < n <= j < arr@.len() ==> #[trigger] le(arr@[ii], arr@[j]),
                forall|k: int| 0 <= k < i ==> #[trigger] le(arr@[k], arr@[i - 1]),
                forall|k: int| new_n < k < i ==> #[trigger] le(arr@[k - 1], arr@[k]),
                new_n > 0 ==> forall|k: int| 0 <= k < new_n ==> #[trigger] le(
                    arr@[k],
                    arr@[new_n as int],
                ),
            decreases n - i,
        {
            proof {
                lemma_le_facts::<T>();
            }
            if arr[i - 1] > arr[i] {
                let ghost pre = arr@;
                arr.swap(i - 1, i);
                proof {
                    lemma_swap_preserves_multiset(pre, i - 1, i as int);
                    assert(pre[i - 1].partial_cmp_spec(&pre[i as int]) == Some(Ordering::Greater));
                    assert(!le(pre[i - 1], pre[i as int]));
                    assert(le(pre[i as int], pre[i - 1]));
                    assert forall|ii: int, j: int|
                        0 <= ii < n <= j < arr@.len() implies #[trigger] le(
                        arr@[ii],
                        arr@[j],
                    ) by {
                        assert(arr@[j] == pre[j]);
                        assert(arr@[ii] == pre[ii] || arr@[ii] == pre[i - 1] || arr@[ii] == pre[
                            i as int
                        ]);
                    }
                    assert forall|k: int| 0 <= k < i + 1 implies #[trigger] le(
                        arr@[k],
                        arr@[i as int],
                    ) by {
                        assert(arr@[i as int] == pre[i - 1]);
                        if k < i - 1 {
                            assert(arr@[k] == pre[k]);
                            assert(le(pre[k], pre[i - 1]));
                        } else if k == i - 1 {
                            assert(arr@[k] == pre[i as int]);
                        } else {
                            assert(le(arr@[k], arr@[k]));
                        }
                    }
                }
                new_n = i;
            } else {
                proof {
                    assert(le(arr@[i - 1], arr@[i as int]));
                    assert forall|k: int| 0 <= k < i + 1 implies #[trigger] le(
                        arr@[k],
                        arr@[i as int],
                    ) by {
                        if k < i {
                            assert(le(arr@[k], arr@[i - 1]));
                        }
                    }
                }
            }
            i = i + 1;
        }
        if new_n == 0 {
            proof {
                assert forall|i2: int, j: int| 0 <= i2 <= j < arr@.len() implies #[trigger] le(
                    arr@[i2],
                    arr@[j],
                ) by {
                    if j < n {
                        lemma_adjacent_implies_pairwise(arr@, 0, n as int, i2, j);
                    }
                }
            }
            break ;
        }
        proof {
            let m = new_n as int;
            assert forall|i2: int, j: int| m <= i2 <= j < arr@.len() implies #[trigger] le(
                arr@[i2],
                arr@[j],
            ) by {
                if j < n {
                    lemma_adjacent_implies_pairwise(arr@, m, n as int, i2, j);
                }
            }
            assert forall|i2: int, j: int| 0 <= i2 < m <= j < arr@.len() implies #[trigger] le(
                arr@[i2],
                arr@[j],
            ) by {
                if j < n {
                    assert(le(arr@[i2], arr@[m]));
                    lemma_adjacent_implies_pairwise(arr@, m, n as int, m, j);
                    lemma_le_facts::<T>();
                }
            }
        }
        n = new_n;
    }
}

} // verus!
