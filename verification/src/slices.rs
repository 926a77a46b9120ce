//! Index arithmetic on runs of samples.
use vstd::arithmetic::div_mod::{
    lemma_fundamental_div_mod, lemma_fundamental_div_mod_converse, lemma_mod_bound,
    lemma_mod_twice, lemma_small_mod, lemma_sub_mod_noop,
};
use vstd::prelude::*;
use vstd::slice::{slice_subrange, slice_to_vec};

verus! {

/// The position that `index` names in a run of `len` items: counted from the
/// front where it is not negative, from the back where it is, and held inside
/// the run either way.
pub open spec fn slice_bound(len: int, index: int) -> int {
    if index >= 0 {
        if index <= len {
            index
        } else {
            len
        }
    } else if len + index >= 0 {
        len + index
    } else {
        0
    }
}

/// Resolves `index` to a position in a run of `len` items.
pub fn resolve_slice_bound(len: usize, index: isize) -> (bound: usize)
    ensures
        bound == slice_bound(len as int, index as int),
        bound <= len,
{
    if index >= 0 {
        let index: usize = index as usize;
        if index < len {
            index
        } else {
            len
        }
    } else {
        // The magnitude of `index`; `-(index + 1)` never overflows.
        let back: usize = (-(index + 1)) as usize + 1;
        len.saturating_sub(back)
    }
}

/// `data` brought to the length of `filler`: its end where it is longer;
/// lengthened by the part of `filler` before its own end where it is shorter,
/// by as many items as are missing, if there are so many.
pub open spec fn padded<T>(data: Seq<T>, filler: Seq<T>) -> Seq<T> {
    let missing = filler.len() - data.len();
    if missing <= 0 {
        data.skip(-missing)
    } else if missing <= data.len() {
        data + filler.subrange(data.len() - missing, data.len() as int)
    } else {
        data
    }
}

/// Brings `data` to the length of `filler`.
pub fn pad_or_truncate<T: Copy>(data: &[T], filler: &[T]) -> (output: Vec<T>)
    ensures
        output@ == padded(data@, filler@),
{
    let len: usize = data.len();
    if filler.len() > len {
        let missing: usize = filler.len() - len;
        let mut output: Vec<T> = slice_to_vec(data);
        if missing <= len {
            let mut extra: Vec<T> = slice_to_vec(slice_subrange(filler, len - missing, len));
            output.append(&mut extra);
        }
        output
    } else {
        slice_to_vec(slice_subrange(data, len - filler.len(), len))
    }
}

/// The result has the length of `filler` unless that is more than twice the
/// length of `data`; then `data` stays as it is.
pub proof fn law_padded_length<T>(data: Seq<T>, filler: Seq<T>)
    ensures
        filler.len() <= 2 * data.len() ==> padded(data, filler).len() == filler.len(),
        filler.len() > 2 * data.len() ==> padded(data, filler) == data,
{
}

/// What was brought to the length of `filler` once stays as it is.
pub proof fn law_padding_twice_is_padding<T>(data: Seq<T>, filler: Seq<T>)
    ensures
        padded(padded(data, filler), filler) == padded(data, filler),
{
    law_padded_length(data, filler);
    assert(padded(padded(data, filler), filler) =~= padded(data, filler));
}

/// The part of a run of `len` samples between `start` and `end`, both held
/// inside the run; `None` where nothing is left.
pub open spec fn held_bounds(len: int, start: int, end: int) -> Option<(usize, usize)> {
    let start = held(start, len);
    let end = held(end, len);
    if start < end {
        Some((start as usize, end as usize))
    } else {
        None
    }
}

/// The number nearest to `at` from zero to `len`.
pub open spec fn held(at: int, len: int) -> int {
    if at < 0 {
        0
    } else if at > len {
        len
    } else {
        at
    }
}

/// Holds the bounds of a measurement inside a run of `len` samples.
pub fn demod_slice_bounds(len: usize, start: i64, end: i64) -> (bounds: Option<(usize, usize)>)
    requires
        len <= i64::MAX,
    ensures
        bounds == held_bounds(len as int, start as int, end as int),
        bounds matches Some((from, to)) ==> from < to <= len,
{
    let len: i64 = len as i64;
    let start: i64 = if start < 0 {
        0
    } else if start > len {
        len
    } else {
        start
    };
    let end: i64 = if end < 0 {
        0
    } else if end > len {
        len
    } else {
        end
    };
    if start < end {
        Some((start as usize, end as usize))
    } else {
        None
    }
}

/// `values` turned by `shift` places towards the end, around the end where
/// needed.
pub open spec fn rolled<T>(values: Seq<T>, shift: int) -> Seq<T> {
    Seq::new(values.len(), |i: int| values[(i - shift) % values.len() as int])
}

/// Calls `<[T]>::rotate_right`: the last `places` items come to the front, in
/// order, and the others follow them, in order. It panics where there are
/// fewer items.
#[verifier::external_body]
fn rotate_right<T>(values: &mut [T], places: usize)
    requires
        places <= old(values)@.len(),
    ensures
        final(values)@ == old(values)@.skip(old(values)@.len() - places) + old(values)@.take(
            old(values)@.len() - places,
        ),
{
    values.rotate_right(places);
}

/// Turns `values` by `shift` places towards the end; a negative shift turns
/// them towards the front.
pub fn roll<T>(values: &mut [T], shift: isize)
    ensures
        final(values)@ == rolled(old(values)@, shift as int),
{
    if values.len() == 0 {
        assert(values@ =~= rolled(old(values)@, shift as int));
        return;
    }
    let len: usize = values.len();
    let places: usize = if shift >= 0 {
        shift as usize % len
    } else {
        // A turn towards the front, by the magnitude of `shift`.
        let back: usize = ((-(shift + 1)) as usize + 1) % len;
        proof {
            lemma_turned(0, -shift, len as int);
        }
        if back == 0 {
            0
        } else {
            len - back
        }
    };
    rotate_right(values, places);
    proof {
        let count = old(values)@.len() as int;
        assert(places == shift as int % count);
        assert forall|i: int| 0 <= i < count implies values@[i] == old(values)@[(i - shift)
            % count] by {
            lemma_turned(i, shift as int, count);
        }
        assert(values@ =~= rolled(old(values)@, shift as int));
    }
}

/// Where a place comes from when `count` places turn by `shift`.
pub proof fn lemma_turned(i: int, shift: int, count: int)
    requires
        0 <= i < count,
    ensures
        ({
            let places = shift % count;
            (i - shift) % count == if i < places {
                i + count - places
            } else {
                i - places
            }
        }),
{
    let places = shift % count;
    let turns = shift / count;
    lemma_fundamental_div_mod(shift, count);
    if i < places {
        assert(i - shift == (-turns - 1) * count + (i + count - places)) by (nonlinear_arith)
            requires
                shift == count * turns + places,
        ;
        lemma_fundamental_div_mod_converse(i - shift, count, -turns - 1, i + count - places);
    } else {
        assert(i - shift == (-turns) * count + (i - places)) by (nonlinear_arith)
            requires
                shift == count * turns + places,
        ;
        lemma_fundamental_div_mod_converse(i - shift, count, -turns, i - places);
    }
}

/// Turning twice is turning by the sum, so turning back undoes a turn.
pub proof fn law_rolls_add_up<T>(values: Seq<T>, shift: int, then: int)
    ensures
        rolled(rolled(values, shift), then) == rolled(values, shift + then),
        rolled(rolled(values, shift), -shift) == values,
{
    let count = values.len() as int;
    assert forall|i: int, by: int| 0 <= i < count implies #[trigger] rolled(
        rolled(values, shift),
        by,
    )[i] == rolled(values, shift + by)[i] by {
        lemma_mod_bound(i - by, count);
        lemma_sub_mod_noop(i - by, shift, count);
        lemma_mod_twice(i - by, count);
        lemma_sub_mod_noop((i - by) % count, shift, count);
    }
    assert(rolled(rolled(values, shift), then) =~= rolled(values, shift + then));
    assert forall|i: int| 0 <= i < count implies rolled(values, 0)[i] == values[i] by {
        lemma_small_mod(i as nat, count as nat);
    }
    assert(rolled(rolled(values, shift), -shift) =~= rolled(values, 0));
    assert(rolled(values, 0) =~= values);
}

/// An index names a position from the front, or, where it is negative, from the back;
/// one that lies beyond an end names that end.
pub proof fn law_bounds_count_from_both_ends(len: int, index: int)
    requires
        len >= 0,
    ensures
        0 <= index <= len ==> slice_bound(len, index) == index,
        index > len ==> slice_bound(len, index) == len,
        -len <= index < 0 ==> slice_bound(len, index) == len + index,
        index < -len ==> slice_bound(len, index) == 0,
{
}

/// Held bounds enclose exactly the samples of the run that lie between the given ones,
/// and there are bounds exactly if there is such a sample.
pub proof fn law_held_bounds_enclose_the_same(len: int, start: int, end: int, i: int)
    requires
        0 <= len <= usize::MAX,
    ensures
        match held_bounds(len, start, end) {
            Some((from, to)) => from < to <= len && (from <= i < to <==> 0 <= i < len && start
                <= i < end),
            None => !(0 <= i < len && start <= i < end),
        },
{
}

/// What is brought to another length keeps its items: where it is longer, those at its
/// end; where it is shorter, all of them, and behind them the items of the filler that
/// end where it ended.
pub proof fn law_padding_keeps_items<T>(data: Seq<T>, filler: Seq<T>, i: int)
    requires
        0 <= i < padded(data, filler).len(),
    ensures
        data.len() >= filler.len() ==> padded(data, filler)[i] == data[data.len() - filler.len()
            + i],
        data.len() < filler.len() && i < data.len() ==> padded(data, filler)[i] == data[i],
        data.len() <= i ==> padded(data, filler)[i] == filler[data.len() - filler.len() + i],
{
}

/// A turn moves every item by as many places towards the end, around the end.
pub proof fn law_rolls_move_items<T>(values: Seq<T>, shift: int, i: int, turns: int)
    requires
        0 <= i < values.len(),
        0 <= i + shift + turns * values.len() < values.len(),
    ensures
        rolled(values, shift).len() == values.len(),
        rolled(values, shift)[i + shift + turns * values.len()] == values[i],
{
    let count = values.len() as int;
    let place = i + shift + turns * count;
    lemma_fundamental_div_mod_converse(place - shift, count, turns, i);
}

} // verus!
