use vstd::prelude::*;
use vstd::slice::slice_index_get;

use crate::array_utils::count_in;
use crate::array_utils::count_of;
use crate::array_utils::eq_is_logical_eq;
use crate::array_utils::first_index_of;

verus! {

/// The value occurring most often in a non-empty slice; among values tied for
/// the highest count, the one whose first occurrence comes earliest.
pub fn mode(v: &[i32]) -> (r: i32)
    requires
        v@.len() > 0,
    ensures
        v@.contains(r),
        forall|i: int| 0 <= i < v@.len() ==> count_of(v@, #[trigger] v@[i]) <= count_of(v@, r),
        forall|i: int|
            0 <= i < first_index_of(v@, r) ==> count_of(v@, #[trigger] v@[i]) < count_of(v@, r),
{
    proof {
        assert(eq_is_logical_eq::<i32>());
    }
    let mut best: i32 = *slice_index_get(v, 0);
    let mut best_count: usize = count_in(v, best);
    proof {
        assert(v@.contains(best)) by {
            assert(v@[0] == best);
        }
        assert(first_index_of(v@, best) == 0);
    }
    let mut i: usize = 1;
    while i < v.len()
        invariant
            1 <= i <= v@.len(),
            v@.contains(best),
            best_count == count_of(v@, best),
            first_index_of(v@, best) < i,
            forall|t: int| 0 <= t < i ==> count_of(v@, #[trigger] v@[t]) <= best_count,
            forall|t: int|
                0 <= t < first_index_of(v@, best) ==> count_of(v@, #[trigger] v@[t]) < best_count,
        decreases v@.len() - i,
    {
        let x = *slice_index_get(v, i);
        let c = count_in(v, x);
        if c > best_count {
            proof {
                assert forall|t: int| 0 <= t < i implies v@[t] != x by {
                    if v@[t] == x {
                        assert(count_of(v@, v@[t]) <= best_count);
                    }
                }
                crate::array_utils::lemma_first_index_of_spec(v@, x);
                assert(v@.contains(x)) by {
                    assert(v@[i as int] == x);
                }
                assert(first_index_of(v@, x) == i) by {
                    assert(first_index_of(v@, x) < v@.len());
                    assert(v@[first_index_of(v@, x)] == x);
                    assert(first_index_of(v@, x) >= i || v@[first_index_of(v@, x)] != x);
                }
            }
            best = x;
            best_count = c;
        }
        i = i + 1;
    }
    best
}

} // verus!
