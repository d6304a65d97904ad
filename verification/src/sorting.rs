//! Ordering a sequence of numbers through its indices, and picking its local
//! maxima.
//!
//! The numbers are doubles given by their bit patterns. They are ordered by
//! the total order of IEEE 754, so a NaN or an infinity has its place like any
//! other value: a negative NaN before every number, a positive NaN after.
//! Equal patterns are ordered by their index, so every result is determined by
//! the input.
use crate::binary64::{at_least, ge, nan, total_key, total_order_key};
use crate::error::InvalidInput;
use vstd::prelude::*;
use vstd::seq_lib::*;

verus! {

/// Index `i` stands before index `j` when the values of `data` are put in
/// ascending order: its value is the smaller one in the total order, or the
/// two values are the same pattern and `i` is the smaller index.
pub open spec fn precedes(data: Seq<u64>, i: int, j: int) -> bool {
    total_key(data[i]) < total_key(data[j]) || (total_key(data[i]) == total_key(data[j]) && i < j)
}

/// Each index of `order` stands before all that follow it.
pub open spec fn ascending(data: Seq<u64>, order: Seq<usize>) -> bool {
    forall|a: int, b: int|
        0 <= a < b < order.len() ==> precedes(data, #[trigger] order[a] as int, #[trigger] order[b] as int)
}

/// Every element of `order` is an index below `n`.
pub open spec fn within(order: Seq<usize>, n: nat) -> bool {
    forall|a: int| 0 <= a < order.len() ==> #[trigger] order[a] < n
}

/// The indices below `n`, each in its own place.
pub open spec fn identity(n: nat) -> Seq<usize> {
    Seq::new(n, |i: int| i as usize)
}

/// `order` is the permutation of the indices of `data` that puts the values in
/// ascending order.
pub open spec fn is_argsort(data: Seq<u64>, order: Seq<usize>) -> bool {
    &&& order.len() == data.len()
    &&& within(order, data.len())
    &&& forall|k: usize| k < data.len() ==> order.contains(k)
    &&& ascending(data, order)
}

/// `chosen` holds elements of `pool` in ascending order, and whatever of `pool`
/// it leaves out stands after all that it holds: it is the start of `pool` put
/// in ascending order.
pub open spec fn selects_first(data: Seq<u64>, pool: Seq<usize>, chosen: Seq<usize>) -> bool {
    &&& ascending(data, chosen)
    &&& forall|a: int| 0 <= a < chosen.len() ==> pool.contains(#[trigger] chosen[a])
    &&& forall|x: usize, a: int|
        #![trigger pool.contains(x), chosen[a]]
        pool.contains(x) && !chosen.contains(x) && 0 <= a < chosen.len() ==> precedes(
            data,
            chosen[a] as int,
            x as int,
        )
}

/// Index `i` is a local maximum of `data`: it has a neighbour on each side and
/// its value is at least that of either. A NaN is no local maximum and has none
/// beside it.
pub open spec fn is_peak(data: Seq<u64>, i: int) -> bool {
    &&& 0 < i < data.len() - 1
    &&& at_least(data[i], data[i - 1])
    &&& at_least(data[i], data[i + 1])
}

/// The local maxima of `data`, by ascending index.
pub open spec fn peaks(data: Seq<u64>) -> Seq<usize> {
    identity(data.len()).filter(|i: usize| is_peak(data, i as int))
}

/// No index of `order` stands before one that comes earlier in `order`.
spec fn nowhere_descending(data: Seq<u64>, order: Seq<usize>) -> bool {
    forall|a: int, b: int|
        0 <= a < b < order.len() ==> !precedes(data, #[trigger] order[b] as int, #[trigger] order[a] as int)
}

/// An order without descent and without a repeated index is ascending.
proof fn lemma_distinct_is_ascending(data: Seq<u64>, order: Seq<usize>)
    requires
        nowhere_descending(data, order),
        order.no_duplicates(),
    ensures
        ascending(data, order),
{
    assert forall|a: int, b: int| 0 <= a < b < order.len() implies precedes(
        data,
        #[trigger] order[a] as int,
        #[trigger] order[b] as int,
    ) by {
        assert(order[a] != order[b]);
        assert(!precedes(data, order[b] as int, order[a] as int));
    }
}

/// What has the same elements as a sequence without repeats, each as often,
/// has no repeats and the same members.
proof fn lemma_rearranged(pool: Seq<usize>, order: Seq<usize>)
    requires
        order.to_multiset() == pool.to_multiset(),
    ensures
        order.len() == pool.len(),
        forall|x: usize| order.contains(x) <==> pool.contains(x),
        pool.no_duplicates() ==> order.no_duplicates(),
{
    to_multiset_len(order);
    to_multiset_len(pool);
    assert forall|x: usize| order.contains(x) <==> pool.contains(x) by {
        to_multiset_contains(order, x);
        to_multiset_contains(pool, x);
    }
    if pool.no_duplicates() {
        pool.lemma_multiset_has_no_duplicates();
        order.lemma_multiset_has_no_duplicates_conv();
    }
}

/// Tells whether index `i` stands before index `j`.
fn comes_before(data: &[u64], i: usize, j: usize) -> (r: bool)
    requires
        i < data.len(),
        j < data.len(),
    ensures
        r == precedes(data@, i as int, j as int),
{
    let a: i64 = total_order_key(data[i]);
    let b: i64 = total_order_key(data[j]);
    a < b || (a == b && i < j)
}

/// Index `x` stands before none of the indices of `order`.
spec fn follows_all(data: Seq<u64>, order: Seq<usize>, x: usize) -> bool {
    forall|k: int| 0 <= k < order.len() ==> !precedes(data, x as int, #[trigger] order[k] as int)
}

/// An order without descent stays so when an index that follows all of it is
/// put at its end, and what does not stand before that index follows all of
/// the longer order.
proof fn lemma_extended(data: Seq<u64>, order: Seq<usize>, x: usize)
    requires
        nowhere_descending(data, order),
        follows_all(data, order, x),
    ensures
        nowhere_descending(data, order.push(x)),
        forall|y: usize| !precedes(data, y as int, x as int) ==> follows_all(data, order.push(x), y),
{
    let longer = order.push(x);
    assert forall|a: int, b: int| 0 <= a < b < longer.len() implies !precedes(
        data,
        #[trigger] longer[b] as int,
        #[trigger] longer[a] as int,
    ) by {
        assert(longer[a] == order[a]);
        if b < order.len() {
            assert(longer[b] == order[b]);
        }
    }
    assert forall|y: usize| !precedes(data, y as int, x as int) implies follows_all(
        data,
        longer,
        y,
    ) by {
        assert forall|k: int| 0 <= k < longer.len() implies !precedes(
            data,
            y as int,
            #[trigger] longer[k] as int,
        ) by {
            if k < order.len() {
                assert(longer[k] == order[k]);
            }
        }
    }
}

/// Merges two lists of indices, neither of them descending, into one.
fn merge(data: &[u64], left: &Vec<usize>, right: &Vec<usize>) -> (out: Vec<usize>)
    requires
        within(left@, data@.len()),
        within(right@, data@.len()),
        nowhere_descending(data@, left@),
        nowhere_descending(data@, right@),
    ensures
        out@.to_multiset() == left@.to_multiset().add(right@.to_multiset()),
        within(out@, data@.len()),
        nowhere_descending(data@, out@),
{
    let mut out: Vec<usize> = Vec::new();
    let mut i: usize = 0;
    let mut j: usize = 0;
    proof {
        broadcast use group_to_multiset_ensures;

        assert(left@.take(0) =~= Seq::<usize>::empty());
        assert(right@.take(0) =~= Seq::<usize>::empty());
        assert(out@.to_multiset() =~= left@.take(0).to_multiset().add(right@.take(0).to_multiset()));
    }
    while i < left.len() || j < right.len()
        invariant
            i <= left.len(),
            j <= right.len(),
            within(left@, data@.len()),
            within(right@, data@.len()),
            nowhere_descending(data@, left@),
            nowhere_descending(data@, right@),
            out@.to_multiset() == left@.take(i as int).to_multiset().add(
                right@.take(j as int).to_multiset(),
            ),
            within(out@, data@.len()),
            nowhere_descending(data@, out@),
            i < left.len() ==> follows_all(data@, out@, left[i as int]),
            j < right.len() ==> follows_all(data@, out@, right[j as int]),
        decreases left.len() - i + right.len() - j,
    {
        let from_left: bool = if j == right.len() {
            true
        } else if i == left.len() {
            false
        } else {
            !comes_before(data, right[j], left[i])
        };
        proof {
            broadcast use group_to_multiset_ensures;

            if from_left {
                lemma_extended(data@, out@, left[i as int]);
                left@.lemma_take_succ_push(i as int);
                if i + 1 < left.len() {
                    assert(!precedes(data@, left[i + 1] as int, left[i as int] as int));
                }
            } else {
                lemma_extended(data@, out@, right[j as int]);
                right@.lemma_take_succ_push(j as int);
                if j + 1 < right.len() {
                    assert(!precedes(data@, right[j + 1] as int, right[j as int] as int));
                }
            }
        }
        if from_left {
            out.push(left[i]);
            i = i + 1;
        } else {
            out.push(right[j]);
            j = j + 1;
        }
        proof {
            assert(out@.to_multiset() =~= left@.take(i as int).to_multiset().add(
                right@.take(j as int).to_multiset(),
            ));
        }
    }
    proof {
        assert(left@.take(left.len() as int) =~= left@);
        assert(right@.take(right.len() as int) =~= right@);
    }
    out
}

/// Sorts a list of indices by the values they point at: a merge sort.
fn sort_indices(data: &[u64], indices: &[usize]) -> (out: Vec<usize>)
    requires
        within(indices@, data@.len()),
    ensures
        out@.to_multiset() == indices@.to_multiset(),
        within(out@, data@.len()),
        nowhere_descending(data@, out@),
    decreases indices@.len(),
{
    let n: usize = indices.len();
    if n <= 1 {
        return vstd::slice::slice_to_vec(indices);
    }
    let mid: usize = n / 2;
    let (front, back) = indices.split_at(mid);
    let left: Vec<usize> = sort_indices(data, front);
    let right: Vec<usize> = sort_indices(data, back);
    proof {
        assert(indices@ =~= front@ + back@);
        lemma_multiset_commutative(front@, back@);
    }
    merge(data, &left, &right)
}

/// Returns the indices of `data` in the order that sorts its values ascending,
/// by the total order of IEEE 754; equal patterns keep the order of their
/// indices.
pub fn argsort(data: &[u64]) -> (order: Vec<usize>)
    ensures
        is_argsort(data@, order@),
        order@.no_duplicates(),
        forall|a: int, b: int|
            0 <= a <= b < order.len() ==> total_key(data[order[a] as int]) <= total_key(
                data[order[b] as int],
            ),
        forall|a: int, b: int|
            0 <= a <= b < order.len() && !nan(data[order[a] as int]) && !nan(data[order[b] as int])
                ==> at_least(data[order[b] as int], data[order[a] as int]),
{
    let n: usize = data.len();
    let mut indices: Vec<usize> = Vec::with_capacity(n);
    let mut i: usize = 0;
    while i < n
        invariant
            i <= n,
            indices@ =~= identity(i as nat),
        decreases n - i,
    {
        indices.push(i);
        i = i + 1;
    }
    let order: Vec<usize> = sort_indices(data, indices.as_slice());
    proof {
        let id = identity(n as nat);
        assert(id.no_duplicates());
        lemma_rearranged(id, order@);
        lemma_distinct_is_ascending(data@, order@);
        assert forall|k: usize| k < data@.len() implies order@.contains(k) by {
            assert(id[k as int] == k);
            assert(id.contains(k));
        }
    }
    order
}

/// Returns the indices of the `npeaks` local maxima of `data` that come first
/// when the local maxima are put in ascending order of their values: those of
/// the lowest values, the lowest first. A local maximum is an index with a
/// neighbour on each side whose value is at least that of either neighbour.
///
/// Fails if `npeaks` is zero or more than the number of local maxima.
pub fn find_peaks(data: &[u64], npeaks: usize) -> (found: Result<Vec<usize>, InvalidInput>)
    ensures
        found is Ok <==> 0 < npeaks <= peaks(data@).len(),
        found matches Ok(chosen) ==> chosen@.len() == npeaks && selects_first(
            data@,
            peaks(data@),
            chosen@,
        ),
        found matches Ok(chosen) ==> forall|a: int|
            0 <= a < chosen@.len() ==> is_peak(data@, #[trigger] chosen@[a] as int),
{
    let n: usize = data.len();
    let ghost is_max = |i: usize| is_peak(data@, i as int);
    let mut maxima: Vec<usize> = Vec::new();
    let mut i: usize = 0;
    proof {
        assert(identity(n as nat).take(0) =~= Seq::<usize>::empty());
        reveal(Seq::filter);
    }
    while i < n
        invariant
            i <= n,
            n == data@.len(),
            is_max == |i: usize| is_peak(data@, i as int),
            maxima@ == identity(n as nat).take(i as int).filter(is_max),
            within(maxima@, i as nat),
            forall|a: int, b: int| 0 <= a < b < maxima.len() ==> maxima[a] < maxima[b],
        decreases n - i,
    {
        let here: bool = 0 < i && i < n - 1 && ge(data[i], data[i - 1]) && ge(data[i], data[i + 1]);
        proof {
            let seen = identity(n as nat).take(i as int);
            identity(n as nat).lemma_take_succ_push(i as int);
            seen.lemma_filter_push(i, is_max);
            assert(here == is_max(i));
        }
        if here {
            maxima.push(i);
        }
        i = i + 1;
    }
    proof {
        assert(identity(n as nat).take(n as int) =~= identity(n as nat));
    }
    if npeaks == 0 || npeaks > maxima.len() {
        return Err(InvalidInput);
    }
    let mut chosen: Vec<usize> = sort_indices(data, maxima.as_slice());
    let ghost sorted = chosen@;
    chosen.truncate(npeaks);
    proof {
        lemma_rearranged(maxima@, sorted);
        lemma_distinct_is_ascending(data@, sorted);
        assert forall|a: int| 0 <= a < chosen.len() implies maxima@.contains(#[trigger] chosen[a])
            && is_peak(data@, chosen[a] as int) by {
            assert(sorted[a] == chosen[a]);
            assert(sorted.contains(sorted[a]));
            let at = choose|at: int| 0 <= at < maxima@.len() && maxima@[at] == chosen[a];
            identity(n as nat).lemma_filter_pred(is_max, at);
        }
        assert forall|x: usize, a: int|
            #![trigger maxima@.contains(x), chosen[a]]
            maxima@.contains(x) && !chosen@.contains(x) && 0 <= a < chosen.len() implies precedes(
            data@,
            chosen[a] as int,
            x as int,
        ) by {
            assert(sorted.contains(x));
            let b = choose|b: int| 0 <= b < sorted.len() && sorted[b] == x;
            if b < npeaks {
                assert(chosen[b] == x);
            }
            assert(sorted[a] == chosen[a]);
        }
    }
    Ok(chosen)
}

/// Two selections from one pool agree on their first `upto` places.
proof fn lemma_selections_agree(
    data: Seq<u64>,
    pool: Seq<usize>,
    first: Seq<usize>,
    second: Seq<usize>,
    upto: int,
)
    requires
        selects_first(data, pool, first),
        selects_first(data, pool, second),
        first.len() == second.len(),
        0 <= upto <= first.len(),
    ensures
        forall|k: int| 0 <= k < upto ==> first[k] == second[k],
    decreases upto,
{
    if upto > 0 {
        lemma_selections_agree(data, pool, first, second, upto - 1);
        let at = upto - 1;
        let x = first[at];
        let y = second[at];
        if x != y {
            if precedes(data, x as int, y as int) {
                lemma_holds_no_later(data, pool, second, first, at);
            } else {
                lemma_holds_no_later(data, pool, first, second, at);
            }
        }
    }
}

/// Where two selections agree before place `at`, what `other` holds at `at`
/// does not stand before what `one` holds there.
proof fn lemma_holds_no_later(
    data: Seq<u64>,
    pool: Seq<usize>,
    one: Seq<usize>,
    other: Seq<usize>,
    at: int,
)
    requires
        selects_first(data, pool, one),
        selects_first(data, pool, other),
        one.len() == other.len(),
        0 <= at < one.len(),
        forall|k: int| 0 <= k < at ==> one[k] == other[k],
    ensures
        !precedes(data, other[at] as int, one[at] as int),
{
    let x = other[at];
    if precedes(data, x as int, one[at] as int) {
        assert(pool.contains(x));
        if one.contains(x) {
            let j = choose|j: int| 0 <= j < one.len() && one[j] == x;
            if j < at {
                assert(other[j] == x);
                assert(precedes(data, other[j] as int, other[at] as int));
            } else if j > at {
                assert(precedes(data, one[at] as int, one[j] as int));
            }
        } else {
            assert(precedes(data, one[at] as int, x as int));
        }
    }
}

/// A pool has one selection of each length: two sequences that both hold the
/// first elements of `pool` in ascending order, and as many, are equal.
pub proof fn lemma_selection_unique(
    data: Seq<u64>,
    pool: Seq<usize>,
    first: Seq<usize>,
    second: Seq<usize>,
)
    requires
        selects_first(data, pool, first),
        selects_first(data, pool, second),
        first.len() == second.len(),
    ensures
        first == second,
{
    lemma_selections_agree(data, pool, first, second, first.len() as int);
    assert(first =~= second);
}

/// A sequence has one sorting permutation.
pub proof fn lemma_argsort_unique(data: Seq<u64>, first: Seq<usize>, second: Seq<usize>)
    requires
        is_argsort(data, first),
        is_argsort(data, second),
    ensures
        first == second,
{
    let pool = identity(data.len());
    lemma_argsort_selects(data, first);
    lemma_argsort_selects(data, second);
    lemma_selection_unique(data, pool, first, second);
}

/// The sorting permutation is the selection of all indices.
proof fn lemma_argsort_selects(data: Seq<u64>, order: Seq<usize>)
    requires
        is_argsort(data, order),
    ensures
        selects_first(data, identity(data.len()), order),
{
    let pool = identity(data.len());
    assert forall|a: int| 0 <= a < order.len() implies pool.contains(#[trigger] order[a]) by {
        assert(pool[order[a] as int] == order[a]);
    }
    assert forall|x: usize| pool.contains(x) implies order.contains(x) by {
        let j = choose|j: int| 0 <= j < pool.len() && pool[j] == x;
        assert(x < data.len());
    }
}

} // verus!
