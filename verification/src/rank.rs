//! Order statistics of numbers that stand for measured values by their order.
use vstd::prelude::*;
use vstd::seq_lib::{
    group_to_multiset_ensures, lemma_multiset_commutative, lemma_sorted_unique, to_multiset_insert,
    to_multiset_update,
};

verus! {

/// The order of keys.
pub open spec fn key_order() -> spec_fn(i64, i64) -> bool {
    |a: i64, b: i64| a <= b
}

/// `keys` in order.
pub open spec fn in_order(keys: Seq<i64>) -> Seq<i64> {
    keys.sort_by(key_order())
}

/// Whether no key before place `at` is above one from there on.
spec fn splits(keys: Seq<i64>, at: int) -> bool {
    forall|i: int, j: int| 0 <= i < at <= j < keys.len() ==> #[trigger] keys[i] <= #[trigger] keys[j]
}

spec fn swapped(keys: Seq<i64>, i: int, j: int) -> Seq<i64> {
    keys.update(i, keys[j]).update(j, keys[i])
}

proof fn lemma_swap_keeps_keys(keys: Seq<i64>, i: int, j: int)
    requires
        0 <= i < keys.len(),
        0 <= j < keys.len(),
    ensures
        swapped(keys, i, j).to_multiset() == keys.to_multiset(),
{
    broadcast use vstd::multiset::group_multiset_axioms;
    broadcast use group_to_multiset_ensures;

    let once = keys.update(i, keys[j]);
    to_multiset_update(keys, i, keys[j]);
    to_multiset_update(once, j, keys[i]);
    assert(swapped(keys, i, j).to_multiset() =~= keys.to_multiset());
}

fn swap(keys: &mut [i64], i: usize, j: usize)
    requires
        i < old(keys)@.len(),
        j < old(keys)@.len(),
    ensures
        final(keys)@ == swapped(old(keys)@, i as int, j as int),
        final(keys)@.to_multiset() == old(keys)@.to_multiset(),
{
    proof {
        lemma_swap_keeps_keys(keys@, i as int, j as int);
    }
    let key: i64 = keys[i];
    keys[i] = keys[j];
    keys[j] = key;
}

/// Brings the key in the middle of a part to its place in that part.
fn partition(keys: &mut [i64], lo: usize, hi: usize) -> (place: usize)
    requires
        lo < hi <= old(keys)@.len(),
        splits(old(keys)@, lo as int),
        splits(old(keys)@, hi as int),
    ensures
        final(keys)@.len() == old(keys)@.len(),
        final(keys)@.to_multiset() == old(keys)@.to_multiset(),
        splits(final(keys)@, lo as int),
        splits(final(keys)@, hi as int),
        lo <= place < hi,
        splits(final(keys)@, place as int),
        splits(final(keys)@, place + 1),
{
    let last: usize = hi - 1;
    swap(keys, lo + (last - lo) / 2, last);
    let pivot: i64 = keys[last];
    let mut place: usize = lo;
    let mut k: usize = lo;
    while k < last
        invariant
            lo <= place <= k <= last,
            last == hi - 1,
            hi <= keys@.len(),
            keys@.len() == old(keys)@.len(),
            keys@.to_multiset() == old(keys)@.to_multiset(),
            splits(keys@, lo as int),
            splits(keys@, hi as int),
            keys@[last as int] == pivot,
            forall|i: int| lo <= i < place ==> #[trigger] keys@[i] < pivot,
            forall|i: int| place <= i < k ==> #[trigger] keys@[i] >= pivot,
        decreases last - k,
    {
        if keys[k] < pivot {
            swap(keys, k, place);
            place += 1;
        }
        k += 1;
    }
    swap(keys, place, last);
    place
}

/// Brings the key of place `k` in order to place `k`: no key before it is above
/// it, and none behind it below it.
fn select_nth(keys: &mut [i64], k: usize)
    requires
        k < old(keys)@.len(),
    ensures
        final(keys)@.len() == old(keys)@.len(),
        final(keys)@.to_multiset() == old(keys)@.to_multiset(),
        splits(final(keys)@, k as int),
        splits(final(keys)@, k + 1),
{
    let mut lo: usize = 0;
    let mut hi: usize = keys.len();
    while hi - lo > 1
        invariant
            lo <= k < hi <= keys@.len(),
            keys@.len() == old(keys)@.len(),
            keys@.to_multiset() == old(keys)@.to_multiset(),
            splits(keys@, lo as int),
            splits(keys@, hi as int),
        decreases hi - lo,
    {
        let place: usize = partition(keys, lo, hi);
        if k < place {
            hi = place;
        } else if k > place {
            lo = place + 1;
        } else {
            lo = k;
            hi = k + 1;
        }
    }
}

/// A key at its place has that place in order.
proof fn lemma_selected(keys: Seq<i64>, k: int)
    requires
        0 <= k < keys.len(),
        splits(keys, k),
        splits(keys, k + 1),
    ensures
        in_order(keys)[k] == keys[k],
        in_order(keys).len() == keys.len(),
{
    let leq = key_order();
    let left = keys.subrange(0, k);
    let right = keys.subrange(k + 1, keys.len() as int);
    left.lemma_sort_by_ensures(leq);
    right.lemma_sort_by_ensures(leq);
    keys.lemma_sort_by_ensures(leq);
    let below = left.sort_by(leq);
    let above = right.sort_by(leq);
    let whole = below.push(keys[k]) + above;
    lemma_same_keys_len(left, below);
    lemma_same_keys_len(right, above);
    assert forall|i: int, j: int| 0 <= i < j < whole.len() implies leq(whole[i], whole[j]) by {
        if i < k {
            lemma_same_keys_contain(below, left, below[i]);
        }
        if j > k {
            lemma_same_keys_contain(above, right, above[j - k - 1]);
        }
    }
    assert(whole.to_multiset() == keys.to_multiset()) by {
        broadcast use vstd::multiset::group_multiset_axioms;
        broadcast use group_to_multiset_ensures;

        let middle = left.push(keys[k]);
        assert(keys =~= middle + right);
        lemma_multiset_commutative(middle, right);
        lemma_multiset_commutative(below.push(keys[k]), above);
    }
    lemma_sorted_unique(whole, keys.sort_by(leq), leq);
}

proof fn lemma_same_keys_len(a: Seq<i64>, b: Seq<i64>)
    requires
        a.to_multiset() == b.to_multiset(),
    ensures
        a.len() == b.len(),
{
    broadcast use group_to_multiset_ensures;

    assert(a.to_multiset().len() == a.len());
    assert(b.to_multiset().len() == b.len());
}

proof fn lemma_same_keys_contain(a: Seq<i64>, b: Seq<i64>, key: i64)
    requires
        a.to_multiset() == b.to_multiset(),
        a.contains(key),
    ensures
        b.contains(key),
{
    broadcast use group_to_multiset_ensures;

    assert(a.to_multiset().count(key) > 0);
}

/// The middle of a set of keys.
#[derive(Clone, Copy, Debug, PartialEq, Eq, Structural)]
pub enum Median {
    /// There are no keys.
    Nothing,
    /// The middle key of an odd number of keys.
    One(i64),
    /// The two middle keys of an even number of keys, the lower one first.
    Two(i64, i64),
}

/// The middle of `keys`.
pub open spec fn middle(keys: Seq<i64>) -> Median {
    let half = keys.len() as int / 2;
    let ordered = in_order(keys);
    if keys.len() == 0 {
        Median::Nothing
    } else if keys.len() % 2 == 0 {
        Median::Two(ordered[half - 1], ordered[half])
    } else {
        Median::One(ordered[half])
    }
}

/// Finds the middle of `keys`, and leaves them in some other order.
pub fn median_from_values(keys: &mut [i64]) -> (median: Median)
    ensures
        median == middle(old(keys)@),
        final(keys)@.to_multiset() == old(keys)@.to_multiset(),
{
    let count: usize = keys.len();
    if count == 0 {
        return Median::Nothing;
    }
    let half: usize = count / 2;
    select_nth(keys, half);
    proof {
        lemma_selected(keys@, half as int);
        lemma_order_of_keys(old(keys)@, keys@);
    }
    if count % 2 == 0 {
        // The lower middle key is the greatest before the upper one.
        let mut low: i64 = keys[0];
        let ghost mut at: int = 0;
        let mut i: usize = 1;
        while i < half
            invariant
                1 <= i <= half < keys@.len(),
                0 <= at < i,
                low == keys@[at],
                forall|j: int| 0 <= j < i ==> #[trigger] keys@[j] <= low,
            decreases half - i,
        {
            if keys[i] > low {
                low = keys[i];
                proof {
                    at = i as int;
                }
            }
            i += 1;
        }
        proof {
            lemma_greatest_below(keys@, half as int, at);
        }
        Median::Two(low, keys[half])
    } else {
        Median::One(keys[half])
    }
}

/// The greatest key before a place that splits the keys comes right before it
/// in order.
proof fn lemma_greatest_below(keys: Seq<i64>, half: int, at: int)
    requires
        0 <= at < half < keys.len(),
        splits(keys, half),
        forall|j: int| 0 <= j < half ==> #[trigger] keys[j] <= keys[at],
    ensures
        in_order(keys)[half - 1] == keys[at],
{
    let moved = swapped(keys, at, half - 1);
    lemma_swap_keeps_keys(keys, at, half - 1);
    assert(splits(moved, half - 1));
    assert(splits(moved, half));
    lemma_selected(moved, half - 1);
    lemma_order_of_keys(keys, moved);
}

/// The order of keys does not depend on where they stood.
proof fn lemma_order_of_keys(a: Seq<i64>, b: Seq<i64>)
    requires
        a.to_multiset() == b.to_multiset(),
    ensures
        in_order(a) == in_order(b),
        a.len() == b.len(),
{
    let leq = key_order();
    a.lemma_sort_by_ensures(leq);
    b.lemma_sort_by_ensures(leq);
    lemma_sorted_unique(a.sort_by(leq), b.sort_by(leq), leq);
    lemma_same_keys_len(a, b);
}

/// Puts `keys` in order.
pub fn sort_keys(keys: Vec<i64>) -> (ordered: Vec<i64>)
    ensures
        ordered@ == in_order(keys@),
{
    let mut ordered: Vec<i64> = Vec::with_capacity(keys.len());
    let mut k: usize = 0;
    assert(keys@.take(0) =~= Seq::empty());
    while k < keys.len()
        invariant
            k <= keys@.len(),
            ordered@.len() == k,
            ordered@.to_multiset() == keys@.take(k as int).to_multiset(),
            forall|i: int, j: int| 0 <= i < j < k ==> #[trigger] ordered@[i] <= #[trigger] ordered@[j],
        decreases keys@.len() - k,
    {
        let key: i64 = keys[k];
        // The first place whose key is above the new one.
        let mut place: usize = k;
        while place > 0 && ordered[place - 1] > key
            invariant
                place <= k,
                ordered@.len() == k,
                forall|i: int| place <= i < k ==> #[trigger] ordered@[i] > key,
            ensures
                place <= k,
                forall|i: int| place <= i < k ==> #[trigger] ordered@[i] > key,
                place > 0 ==> ordered@[place - 1] <= key,
            decreases place,
        {
            place -= 1;
        }
        proof {
            broadcast use vstd::multiset::group_multiset_axioms;
            broadcast use group_to_multiset_ensures;

            to_multiset_insert(ordered@, place as int, key);
            assert(keys@.take(k + 1) =~= keys@.take(k as int).push(key));
        }
        ordered.insert(place, key);
        k += 1;
    }
    proof {
        assert(keys@.take(k as int) =~= keys@);
        let leq = key_order();
        keys@.lemma_sort_by_ensures(leq);
        assert forall|i: int, j: int| 0 <= i < j < ordered@.len() implies leq(
            ordered@[i],
            ordered@[j],
        ) by {}
        lemma_sorted_unique(ordered@, keys@.sort_by(leq), leq);
    }
    ordered
}

/// Order keeps the number of keys.
pub proof fn lemma_order_keeps_len(keys: Seq<i64>)
    ensures
        in_order(keys).len() == keys.len(),
{
    keys.lemma_sort_by_ensures(key_order());
    lemma_same_keys_len(keys, in_order(keys));
}

/// The middle of some keys is that of the same keys in ascending order: the middle one,
/// or the two around the middle, whatever order they are given in.
pub proof fn law_middle_is_that_of_ascending_keys(
    keys: Seq<i64>,
    ascending: Seq<i64>,
    half: int,
)
    requires
        ascending.to_multiset() == keys.to_multiset(),
        forall|i: int, j: int|
            0 <= i < j < ascending.len() ==> #[trigger] ascending[i] <= #[trigger] ascending[j],
    ensures
        ascending.len() == keys.len(),
        keys.len() == 0 ==> middle(keys) is Nothing,
        keys.len() == 2 * half + 1 ==> middle(keys) == Median::One(ascending[half]),
        half > 0 && keys.len() == 2 * half ==> middle(keys) == Median::Two(
            ascending[half - 1],
            ascending[half],
        ),
        in_order(keys) == ascending,
{
    let leq = key_order();
    keys.lemma_sort_by_ensures(leq);
    lemma_sorted_unique(ascending, keys.sort_by(leq), leq);
    lemma_same_keys_len(keys, ascending);
}

/// Keys in order are the same keys, ascending.
pub proof fn law_order_is_ascending(keys: Seq<i64>)
    ensures
        in_order(keys).to_multiset() == keys.to_multiset(),
        forall|i: int, j: int|
            0 <= i < j < in_order(keys).len() ==> #[trigger] in_order(keys)[i]
                <= #[trigger] in_order(keys)[j],
{
    let leq = key_order();
    keys.lemma_sort_by_ensures(leq);
    let ordered = keys.sort_by(leq);
    assert forall|i: int, j: int| 0 <= i < j < ordered.len() implies #[trigger] ordered[i]
        <= #[trigger] ordered[j] by {
        assert(leq(ordered[i], ordered[j]));
    }
}

} // verus!
