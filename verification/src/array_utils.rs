use vstd::prelude::*;
use vstd::slice::slice_index_get;
use vstd::std_specs::cmp::PartialEqSpec;

verus! {

/// The groups that chunking `s` into pieces of `k` elements yields: every
/// group holds exactly `k` consecutive elements of `s`, in order, except
/// possibly the last, which holds whatever remains.
pub open spec fn chunks_of<T>(s: Seq<T>, k: int) -> Seq<Seq<T>>
    recommends
        k >= 1,
    decreases s.len(),
{
    if k < 1 {
        Seq::empty()
    } else if s.len() == 0 {
        Seq::empty()
    } else if s.len() <= k {
        seq![s]
    } else {
        seq![s.take(k)] + chunks_of(s.skip(k), k)
    }
}

/// Splits a slice into consecutive groups of `chunk_size` elements each, the
/// last group holding the remainder; a zero `chunk_size` is rejected.
pub fn chunk_vec<T: Copy>(v: &[T], chunk_size: usize) -> (r: Result<Vec<Vec<T>>, &'static str>)
    ensures
        chunk_size == 0 <==> r is Err,
        r matches Err(m) ==> m@ == "Chunk size cannot be zero"@,
        r matches Ok(gs) ==> gs@.map_values(|g: Vec<T>| g@) == chunks_of(v@, chunk_size as int),
{
    if chunk_size == 0 {
        Err("Chunk size cannot be zero")
    } else {
        let ghost k: int = chunk_size as int;
        let mut result: Vec<Vec<T>> = Vec::new();
        let mut i: usize = 0;
        proof {
            assert(v@.skip(0) =~= v@);
            assert(result@.map_values(|g: Vec<T>| g@) =~= Seq::<Seq<T>>::empty());
            assert(Seq::<Seq<T>>::empty() + chunks_of(v@, k) =~= chunks_of(v@, k));
        }
        while i < v.len()
            invariant
                1 <= chunk_size,
                k == chunk_size as int,
                i <= v@.len(),
                result@.map_values(|g: Vec<T>| g@) + chunks_of(v@.skip(i as int), k)
                    == chunks_of(v@, k),
            decreases v@.len() - i,
        {
            let end: usize = if v.len() - i > chunk_size {
                i + chunk_size
            } else {
                v.len()
            };
            let mut group: Vec<T> = Vec::new();
            let mut j: usize = i;
            while j < end
                invariant
                    i <= j <= end <= v@.len(),
                    group@ == v@.subrange(i as int, j as int),
                decreases end - j,
            {
                group.push(*slice_index_get(v, j));
                proof {
                    assert(v@.subrange(i as int, j as int).push(v@[j as int])
                        =~= v@.subrange(i as int, j + 1 as int));
                }
                j = j + 1;
            }
            proof {
                let rem = v@.skip(i as int);
                assert(rem.len() == v@.len() - i);
                if rem.len() <= k {
                    assert(group@ =~= rem);
                    assert(chunks_of(rem, k) == seq![rem]);
                    assert(v@.skip(end as int) =~= Seq::<T>::empty());
                } else {
                    assert(group@ =~= rem.take(k));
                    assert(rem.skip(k) =~= v@.skip(end as int));
                    assert(chunks_of(rem, k) == seq![rem.take(k)] + chunks_of(rem.skip(k), k));
                }
                assert(result@.push(group).map_values(|g: Vec<T>| g@)
                    =~= result@.map_values(|g: Vec<T>| g@).push(group@));
                assert(result@.map_values(|g: Vec<T>| g@).push(group@)
                    + chunks_of(v@.skip(end as int), k)
                    =~= result@.map_values(|g: Vec<T>| g@)
                        + (seq![group@] + chunks_of(v@.skip(end as int), k)));
            }
            result.push(group);
            i = end;
        }
        proof {
            assert(v@.skip(i as int) =~= Seq::<T>::empty());
            assert(chunks_of(v@.skip(i as int), k) == Seq::<Seq<T>>::empty());
            assert(result@.map_values(|g: Vec<T>| g@) + Seq::<Seq<T>>::empty()
                =~= result@.map_values(|g: Vec<T>| g@));
        }
        Ok(result)
    }
}

/// Chunking partitions the input: the groups concatenate back to the original
/// sequence, every group but the last holds exactly `k` elements, and the last
/// holds between 1 and `k`.
pub proof fn lemma_chunks_of_partition<T>(s: Seq<T>, k: int)
    requires
        k >= 1,
    ensures
        chunks_of(s, k).flatten() == s,
        forall|i: int|
            0 <= i < chunks_of(s, k).len() - 1 ==> (#[trigger] chunks_of(s, k)[i]).len() == k,
        s.len() > 0 ==> chunks_of(s, k).len() >= 1,
        s.len() > 0 ==> 1 <= chunks_of(s, k).last().len() <= k,
        s.len() == 0 ==> chunks_of(s, k) == Seq::<Seq<T>>::empty(),
    decreases s.len(),
{
    let cs = chunks_of(s, k);
    if s.len() == 0 {
        assert(cs.flatten() =~= s);
    } else if s.len() <= k {
        assert(cs == seq![s]);
        assert(cs.drop_first() =~= Seq::<Seq<T>>::empty());
        assert(Seq::<Seq<T>>::empty().flatten() == Seq::<T>::empty());
        assert(cs.flatten() =~= s);
    } else {
        let rest = chunks_of(s.skip(k), k);
        lemma_chunks_of_partition(s.skip(k), k);
        assert(cs == seq![s.take(k)] + rest);
        assert(cs.first() == s.take(k));
        assert(cs.drop_first() =~= rest);
        assert(cs.flatten() == s.take(k) + rest.flatten());
        assert(s.take(k) + s.skip(k) =~= s);
        assert forall|i: int| 0 <= i < cs.len() - 1 implies (#[trigger] cs[i]).len() == k by {
            if i == 0 {
                assert(cs[0] == s.take(k));
            } else {
                assert(cs[i] == rest[i - 1]);
            }
        }
        assert(cs.last() == rest.last());
    }
}

/// The distinct elements of `s`, each kept at its first occurrence, in order.
pub open spec fn dedup_of<T>(s: Seq<T>) -> Seq<T>
    decreases s.len(),
{
    if s.len() == 0 {
        Seq::empty()
    } else if dedup_of(s.drop_last()).contains(s.last()) {
        dedup_of(s.drop_last())
    } else {
        dedup_of(s.drop_last()).push(s.last())
    }
}

/// Whether a type's `==` operator agrees with logical equality, which is what
/// deduplication goes by.
pub open spec fn eq_is_logical_eq<T: PartialEq>() -> bool {
    &&& T::obeys_eq_spec()
    &&& forall|a: T, b: T| (#[trigger] a.eq_spec(&b)) <==> a == b
}

fn contains_value<T: Copy + PartialEq>(v: &Vec<T>, x: T) -> (r: bool)
    requires
        eq_is_logical_eq::<T>(),
    ensures
        r == v@.contains(x),
{
    let mut j: usize = 0;
    while j < v.len()
        invariant
            eq_is_logical_eq::<T>(),
            j <= v@.len(),
            forall|t: int| 0 <= t < j ==> v@[t] != x,
        decreases v@.len() - j,
    {
        if v[j] == x {
            assert(v@.contains(x)) by {
                assert(v@[j as int] == x);
            }
            return true;
        }
        j = j + 1;
    }
    false
}

/// Removes duplicates: keeps the first occurrence of each distinct value, in
/// the order the values first appear.
pub fn remove_duplicates<T: Copy + PartialEq>(v: &[T]) -> (r: Vec<T>)
    requires
        eq_is_logical_eq::<T>(),
    ensures
        r@ == dedup_of(v@),
{
    let mut result: Vec<T> = Vec::new();
    let mut i: usize = 0;
    proof {
        assert(v@.take(0) =~= Seq::<T>::empty());
    }
    while i < v.len()
        invariant
            eq_is_logical_eq::<T>(),
            i <= v@.len(),
            result@ == dedup_of(v@.take(i as int)),
        decreases v@.len() - i,
    {
        let x = *slice_index_get(v, i);
        proof {
            assert(v@.take(i + 1 as int).drop_last() =~= v@.take(i as int));
            assert(v@.take(i + 1 as int).last() == v@[i as int]);
        }
        if !contains_value(&result, x) {
            result.push(x);
        }
        i = i + 1;
    }
    proof {
        assert(v@.take(v@.len() as int) =~= v@);
    }
    result
}

/// The position of the first occurrence of `x` in `s`, or `s.len()` when `x`
/// does not occur.
pub open spec fn first_index_of<T>(s: Seq<T>, x: T) -> int
    decreases s.len(),
{
    if s.len() == 0 {
        0
    } else if s[0] == x {
        0
    } else {
        1 + first_index_of(s.drop_first(), x)
    }
}

/// `first_index_of` is the least position holding `x`, and falls inside the
/// sequence exactly when `x` occurs in it.
pub proof fn lemma_first_index_of_spec<T>(s: Seq<T>, x: T)
    ensures
        0 <= first_index_of(s, x) <= s.len(),
        s.contains(x) <==> first_index_of(s, x) < s.len(),
        first_index_of(s, x) < s.len() ==> s[first_index_of(s, x)] == x,
        forall|t: int| 0 <= t < first_index_of(s, x) ==> s[t] != x,
    decreases s.len(),
{
    if s.len() == 0 {
    } else if s[0] == x {
        assert(s.contains(x)) by {
            assert(s[0] == x);
        }
    } else {
        let d = s.drop_first();
        lemma_first_index_of_spec(d, x);
        assert forall|t: int| 0 <= t < first_index_of(s, x) implies s[t] != x by {
            if t > 0 {
                assert(s[t] == d[t - 1]);
            }
        }
        if d.contains(x) {
            let w = choose|w: int| 0 <= w < d.len() && d[w] == x;
            assert(s.contains(x)) by {
                assert(s[w + 1] == x);
            }
        }
        if s.contains(x) {
            let w = choose|w: int| 0 <= w < s.len() && s[w] == x;
            assert(w != 0);
            assert(d.contains(x)) by {
                assert(d[w - 1] == x);
            }
        }
    }
}

/// How the first occurrence of `x` moves when one element is appended.
pub proof fn lemma_first_index_of_push<T>(s: Seq<T>, y: T, x: T)
    ensures
        s.contains(x) ==> first_index_of(s.push(y), x) == first_index_of(s, x),
        !s.contains(x) && y == x ==> first_index_of(s.push(y), x) == s.len(),
        !s.contains(x) && y != x ==> first_index_of(s.push(y), x) == s.len() + 1,
    decreases s.len(),
{
    let p = s.push(y);
    if s.len() == 0 {
        assert(!s.contains(x));
        assert(p[0] == y);
        if y != x {
            assert(p.drop_first() =~= Seq::<T>::empty());
            assert(first_index_of(Seq::<T>::empty(), x) == 0);
            assert(first_index_of(p, x) == 1 + first_index_of(p.drop_first(), x));
        }
    } else {
        assert(p[0] == s[0]);
        if s[0] == x {
            assert(s.contains(x)) by {
                assert(s[0] == x);
            }
        } else {
            assert(p.drop_first() =~= s.drop_first().push(y));
            lemma_first_index_of_push(s.drop_first(), y, x);
            let d = s.drop_first();
            assert(first_index_of(p, x) == 1 + first_index_of(d.push(y), x));
            assert(first_index_of(s, x) == 1 + first_index_of(d, x));
            if d.contains(x) {
                let w = choose|w: int| 0 <= w < d.len() && d[w] == x;
                assert(s.contains(x)) by {
                    assert(s[w + 1] == x);
                }
            }
            if s.contains(x) {
                let w = choose|w: int| 0 <= w < s.len() && s[w] == x;
                assert(w != 0);
                assert(d.contains(x)) by {
                    assert(d[w - 1] == x);
                }
            }
        }
    }
}

/// Deduplication keeps exactly the distinct values of `s`: each value of `s`
/// once and nothing else, ordered by first occurrence in `s`.
pub proof fn lemma_dedup_of_properties<T>(s: Seq<T>)
    ensures
        forall|x: T| dedup_of(s).contains(x) <==> s.contains(x),
        forall|i: int, j: int|
            0 <= i < j < dedup_of(s).len() ==> dedup_of(s)[i] != dedup_of(s)[j],
        forall|i: int, j: int|
            0 <= i < j < dedup_of(s).len() ==> first_index_of(s, dedup_of(s)[i])
                < first_index_of(s, dedup_of(s)[j]),
    decreases s.len(),
{
    if s.len() == 0 {
    } else {
        let sp = s.drop_last();
        let x = s.last();
        let dp = dedup_of(sp);
        let d = dedup_of(s);
        lemma_dedup_of_properties(sp);
        assert(sp.push(x) =~= s);
        assert forall|y: T| s.contains(y) implies sp.contains(y) || y == x by {
            let w = choose|w: int| 0 <= w < s.len() && s[w] == y;
            if w < s.len() - 1 {
                assert(sp[w] == y);
            }
        }
        assert forall|y: T| sp.contains(y) implies s.contains(y) by {
            let w = choose|w: int| 0 <= w < sp.len() && sp[w] == y;
            assert(s[w] == y);
        }
        assert(s.contains(x)) by {
            assert(s[s.len() - 1] == x);
        }
        assert forall|y: T| sp.contains(y) implies first_index_of(s, y) == first_index_of(
            sp,
            y,
        ) by {
            lemma_first_index_of_push(sp, x, y);
        }
        if dp.contains(x) {
            assert(d == dp);
        } else {
            assert(d == dp.push(x));
            assert(!sp.contains(x));
            lemma_first_index_of_push(sp, x, x);
            assert(first_index_of(s, x) == sp.len());
            assert forall|y: T| d.contains(y) implies s.contains(y) by {
                let w = choose|w: int| 0 <= w < d.len() && d[w] == y;
                if w < d.len() - 1 {
                    assert(dp[w] == y);
                } else {
                    assert(y == x);
                }
            }
            assert forall|y: T| s.contains(y) implies d.contains(y) by {
                if sp.contains(y) {
                    let w = choose|w: int| 0 <= w < dp.len() && dp[w] == y;
                    assert(d[w] == y);
                } else {
                    assert(d[d.len() - 1] == y);
                }
            }
            assert forall|i: int, j: int| 0 <= i < j < d.len() implies d[i] != d[j] by {
                if j < d.len() - 1 {
                    assert(d[i] == dp[i] && d[j] == dp[j]);
                } else {
                    assert(d[j] == x);
                    assert(d[i] == dp[i]);
                    assert(dp.contains(dp[i])) by {
                        assert(dp[i] == dp[i]);
                    }
                }
            }
            assert forall|i: int, j: int| 0 <= i < j < d.len() implies first_index_of(s, d[i])
                < first_index_of(s, d[j]) by {
                if j < d.len() - 1 {
                    assert(d[i] == dp[i] && d[j] == dp[j]);
                } else {
                    assert(d[j] == x);
                    assert(d[i] == dp[i]);
                    assert(dp.contains(dp[i])) by {
                        assert(dp[i] == dp[i]);
                    }
                    assert(sp.contains(dp[i]));
                    lemma_first_index_of_spec(sp, dp[i]);
                    assert(first_index_of(s, d[i]) < sp.len());
                }
            }
        }
    }
}

/// Deduplicating an already deduplicated sequence changes nothing.
pub proof fn lemma_dedup_of_idempotent<T>(s: Seq<T>)
    ensures
        dedup_of(dedup_of(s)) == dedup_of(s),
{
    lemma_dedup_of_properties(s);
    lemma_dedup_of_distinct_fixed(dedup_of(s));
}

/// A sequence without repeated values is a fixed point of deduplication.
proof fn lemma_dedup_of_distinct_fixed<T>(d: Seq<T>)
    requires
        forall|i: int, j: int| 0 <= i < j < d.len() ==> d[i] != d[j],
    ensures
        dedup_of(d) == d,
    decreases d.len(),
{
    if d.len() == 0 {
        assert(dedup_of(d) =~= d);
    } else {
        let dp = d.drop_last();
        lemma_dedup_of_distinct_fixed(dp);
        if dp.contains(d.last()) {
            let w = choose|w: int| 0 <= w < dp.len() && dp[w] == d.last();
            assert(d[w] == d[d.len() - 1]);
            assert(false);
        }
        assert(dedup_of(d) == dp.push(d.last()));
        assert(dp.push(d.last()) =~= d);
    }
}

/// How many times `x` occurs in `s`.
pub open spec fn count_of<T>(s: Seq<T>, x: T) -> nat
    decreases s.len(),
{
    if s.len() == 0 {
        0
    } else {
        count_of(s.drop_last(), x) + (if s.last() == x {
            1nat
        } else {
            0nat
        })
    }
}

/// The element that pairs with `x` to reach `target`.
pub open spec fn sum_partner(target: i64, x: i64) -> i64 {
    (target - x) as i64
}

/// The pairs that one occurrence of `x` contributes: `(x, x)` repeated
/// `count(x) / 2` times when `x` is its own partner, else `(x, partner)`
/// repeated once per occurrence of the partner, and nothing when the partner
/// is absent.
pub open spec fn pair_contrib(s: Seq<i64>, target: i64, x: i64) -> Seq<(i64, i64)> {
    let c = sum_partner(target, x);
    if count_of(s, c) == 0 {
        Seq::empty()
    } else if c == x {
        Seq::new(count_of(s, x) / 2, |q: int| (x, x))
    } else {
        Seq::new(count_of(s, c), |q: int| (x, c))
    }
}

/// The pairs contributed by the first `n` elements of `s`, in traversal order.
pub open spec fn pairs_upto(s: Seq<i64>, target: i64, n: int) -> Seq<(i64, i64)>
    decreases n,
{
    if n <= 0 {
        Seq::empty()
    } else {
        pairs_upto(s, target, n - 1) + pair_contrib(s, target, s[n - 1])
    }
}

/// All pairs summing to `target` that a full traversal of `s` yields, each
/// element of `s` contributing by multiplicity.
pub open spec fn pairs_with_sum(s: Seq<i64>, target: i64) -> Seq<(i64, i64)> {
    pairs_upto(s, target, s.len() as int)
}

pub(crate) fn count_in<T: Copy + PartialEq>(arr: &[T], x: T) -> (c: usize)
    requires
        eq_is_logical_eq::<T>(),
    ensures
        c == count_of(arr@, x),
{
    let mut c: usize = 0;
    let mut j: usize = 0;
    proof {
        assert(arr@.take(0) =~= Seq::<T>::empty());
    }
    while j < arr.len()
        invariant
            eq_is_logical_eq::<T>(),
            j <= arr@.len(),
            c == count_of(arr@.take(j as int), x),
            c <= j,
        decreases arr@.len() - j,
    {
        proof {
            assert(arr@.take(j + 1 as int).drop_last() =~= arr@.take(j as int));
            assert(arr@.take(j + 1 as int).last() == arr@[j as int]);
        }
        if *slice_index_get(arr, j) == x {
            c = c + 1;
        }
        j = j + 1;
    }
    proof {
        assert(arr@.take(arr@.len() as int) =~= arr@);
    }
    c
}

/// Finds every pair of elements summing to `target`, walking the input in
/// order and counting partners over the whole input, so duplicated inputs
/// yield duplicated pairs.
pub fn find_pairs_with_sum(arr: &[i64], target: i64) -> (r: Vec<(i64, i64)>)
    requires
        forall|i: int|
            0 <= i < arr@.len() ==> i64::MIN <= target - (#[trigger] arr@[i]) <= i64::MAX,
    ensures
        r@ == pairs_with_sum(arr@, target),
{
    let mut pairs: Vec<(i64, i64)> = Vec::new();
    let mut i: usize = 0;
    proof {
        assert(pairs@ =~= pairs_upto(arr@, target, 0));
    }
    while i < arr.len()
        invariant
            i <= arr@.len(),
            forall|t: int|
                0 <= t < arr@.len() ==> i64::MIN <= target - (#[trigger] arr@[t]) <= i64::MAX,
            pairs@ == pairs_upto(arr@, target, i as int),
        decreases arr@.len() - i,
    {
        let num = *slice_index_get(arr, i);
        let partner = target - num;
        proof {
            assert(partner == sum_partner(target, num));
        }
        let count = count_in(arr, partner);
        let ghost before = pairs@;
        if count > 0 {
            if num == partner {
                let reps = count / 2;
                let mut q: usize = 0;
                while q < reps
                    invariant
                        q <= reps,
                        num == sum_partner(target, num),
                        reps == count_of(arr@, num) / 2,
                        pairs@ == before + Seq::new(q as nat, |t: int| (num, num)),
                    decreases reps - q,
                {
                    pairs.push((num, num));
                    proof {
                        assert(before + Seq::new(q as nat, |t: int| (num, num)).push((num, num))
                            =~= before + Seq::new((q + 1) as nat, |t: int| (num, num)));
                        assert((before + Seq::new(q as nat, |t: int| (num, num))).push((num, num))
                            =~= before + Seq::new(q as nat, |t: int| (num, num)).push((num, num)));
                    }
                    q = q + 1;
                }
                proof {
                    assert(pair_contrib(arr@, target, num) =~= Seq::new(
                        reps as nat,
                        |t: int| (num, num),
                    ));
                }
            } else {
                let mut q: usize = 0;
                while q < count
                    invariant
                        q <= count,
                        partner == sum_partner(target, num),
                        num != partner,
                        count == count_of(arr@, partner),
                        pairs@ == before + Seq::new(q as nat, |t: int| (num, partner)),
                    decreases count - q,
                {
                    pairs.push((num, partner));
                    proof {
                        assert(before + Seq::new(q as nat, |t: int| (num, partner)).push(
                            (num, partner),
                        ) =~= before + Seq::new((q + 1) as nat, |t: int| (num, partner)));
                        assert((before + Seq::new(q as nat, |t: int| (num, partner))).push(
                            (num, partner),
                        ) =~= before + Seq::new(q as nat, |t: int| (num, partner)).push(
                            (num, partner),
                        ));
                    }
                    q = q + 1;
                }
                proof {
                    assert(pair_contrib(arr@, target, num) =~= Seq::new(
                        count as nat,
                        |t: int| (num, partner),
                    ));
                }
            }
        } else {
            proof {
                assert(pair_contrib(arr@, target, num) =~= Seq::<(i64, i64)>::empty());
                assert(pairs@ =~= before + pair_contrib(arr@, target, num));
            }
        }
        proof {
            assert(pairs_upto(arr@, target, i + 1 as int) == pairs_upto(arr@, target, i as int)
                + pair_contrib(arr@, target, arr@[i as int]));
        }
        i = i + 1;
    }
    pairs
}

} // verus!
