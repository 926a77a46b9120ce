//! Comb filters: every sample against samples a fixed distance away, around
//! the ends.
use crate::double::{law_single_order_is_numeric, Single};
use crate::separation::is_combed;
use crate::slices::{lemma_turned, rolled};
use vstd::arithmetic::div_mod::{
    lemma_fundamental_div_mod, lemma_fundamental_div_mod_converse,
};
use vstd::prelude::*;

verus! {

/// The place `shift` places before `i`, around the front.
fn place_behind(i: usize, shift: usize, len: usize, distance: Ghost<int>) -> (place: usize)
    requires
        i < len,
        shift == distance@ % len as int,
    ensures
        place == (i - distance@) % len as int,
        place < len,
{
    proof {
        lemma_turned(i as int, distance@, len as int);
        lemma_fundamental_div_mod(distance@, len as int);
    }
    if i < shift {
        i + (len - shift)
    } else {
        i - shift
    }
}

/// The place `shift` places behind `i`, around the end.
fn place_ahead(i: usize, shift: usize, len: usize, distance: Ghost<int>) -> (place: usize)
    requires
        i < len,
        shift == distance@ % len as int,
    ensures
        place == (i + distance@) % len as int,
        place < len,
{
    proof {
        let count = len as int;
        let turns = distance@ / count;
        lemma_fundamental_div_mod(distance@, count);
        if i + shift < count {
            assert(i + distance@ == turns * count + (i + shift)) by (nonlinear_arith)
                requires
                    distance@ == count * turns + shift,
            ;
            lemma_fundamental_div_mod_converse(i + distance@, count, turns, i + shift);
        } else {
            assert(i + distance@ == (turns + 1) * count + (i + shift - count))
                by (nonlinear_arith)
                requires
                    distance@ == count * turns + shift,
            ;
            lemma_fundamental_div_mod_converse(
                i + distance@,
                count,
                turns + 1,
                i + shift - count,
            );
        }
    }
    if i < len - shift {
        i + shift
    } else {
        i - (len - shift)
    }
}

/// Whether `out` is a combed sample: `reduce` takes off `current` what it stands out
/// by against the samples `ahead` and `behind`, held within `limit`.
pub open spec fn is_combed_sample<
    S: Fn(Single, Single, Single) -> Single,
    R: Fn(Single, Single) -> Single,
>(
    current: Single,
    ahead: Single,
    behind: Single,
    limit: Single,
    stand_out: S,
    reduce: R,
    out: Single,
) -> bool {
    exists|sum: Single| #[trigger]
        stand_out.ensures((current, ahead, behind), sum) && reduce.ensures(
            (current, sum.clipped(limit.opposite(), limit)),
            out,
        )
}

/// Whether `output` is `input` combed with the lines behind and before.
pub open spec fn is_line_comb<
    S: Fn(Single, Single, Single) -> Single,
    R: Fn(Single, Single) -> Single,
>(
    input: Seq<Single>,
    line_len: int,
    limit: Single,
    stand_out: S,
    reduce: R,
    output: Seq<Single>,
) -> bool {
    &&& output.len() == input.len()
    &&& forall|i: int|
        0 <= i < input.len() ==> is_combed_sample(
            input[i],
            rolled(input, -line_len)[i],
            rolled(input, line_len)[i],
            limit,
            stand_out,
            reduce,
            #[trigger] output[i],
        )
}

/// Combs every sample with the samples one line behind it and one line before it.
/// `stand_out` is the sum of its differences to those, `reduce` takes that, held
/// within `limit`, off it.
pub fn y_comb<S: Fn(Single, Single, Single) -> Single, R: Fn(Single, Single) -> Single>(
    input: &[Single],
    line_len: usize,
    limit: Single,
    stand_out: S,
    reduce: R,
) -> (output: Vec<Single>)
    requires
        input@.len() > 0 ==> limit.opposite().at_most(limit),
        forall|current: Single, ahead: Single, behind: Single|
            stand_out.requires((current, ahead, behind)),
        forall|current: Single, sum: Single| reduce.requires((current, sum)),
    ensures
        is_line_comb(input@, line_len as int, limit, stand_out, reduce, output@),
{
    let len: usize = input.len();
    let mut output: Vec<Single> = Vec::with_capacity(len);
    if len == 0 {
        return output;
    }
    let least: Single = limit.negate();
    let shift: usize = line_len % len;
    let mut i: usize = 0;
    while i < len
        invariant
            i <= len,
            len > 0,
            len == input@.len(),
            shift == line_len as int % len as int,
            least == limit.opposite(),
            forall|current: Single, ahead: Single, behind: Single|
                stand_out.requires((current, ahead, behind)),
            forall|current: Single, sum: Single| reduce.requires((current, sum)),
            output@.len() == i,
            forall|j: int|
                0 <= j < i ==> is_combed_sample(
                    input@[j],
                    rolled(input@, -line_len as int)[j],
                    rolled(input@, line_len as int)[j],
                    limit,
                    stand_out,
                    reduce,
                    #[trigger] output@[j],
                ),
        decreases len - i,
    {
        let ahead: usize = place_ahead(i, shift, len, Ghost(line_len as int));
        let behind: usize = place_behind(i, shift, len, Ghost(line_len as int));
        let sum: Single = stand_out(input[i], input[ahead], input[behind]);
        output.push(reduce(input[i], sum.clip(least, limit)));
        i += 1;
    }
    output
}

/// Combines every sample with the one `delay` samples before it.
pub fn chromasep_comb<T: Copy, F: Fn(T, T) -> T>(data: &[T], delay: usize, combine: F) -> (output:
    Vec<T>)
    requires
        forall|a: T, b: T| combine.requires((a, b)),
    ensures
        is_combed(data@, delay as int, combine, output@),
{
    let len: usize = data.len();
    let mut output: Vec<T> = Vec::with_capacity(len);
    if len == 0 {
        return output;
    }
    let shift: usize = delay % len;
    let mut i: usize = 0;
    while i < len
        invariant
            i <= len,
            len > 0,
            len == data@.len(),
            shift == delay as int % len as int,
            forall|a: T, b: T| combine.requires((a, b)),
            output@.len() == i,
            forall|j: int|
                0 <= j < i ==> combine.ensures(
                    (data@[j], rolled(data@, delay as int)[j]),
                    #[trigger] output@[j],
                ),
        decreases len - i,
    {
        let behind: usize = place_behind(i, shift, len, Ghost(delay as int));
        output.push(combine(data[i], data[behind]));
        i += 1;
    }
    output
}

/// A combed sample is its own less what it stands out by against the two samples one
/// line away from it, around the ends; what it stands out by is held between the limit
/// and its opposite. Neither the order of the lines nor the length is changed.
pub proof fn law_comb_reads_the_lines_around<
    S: Fn(Single, Single, Single) -> Single,
    R: Fn(Single, Single) -> Single,
>(
    input: Seq<Single>,
    line_len: int,
    limit: Single,
    stand_out: S,
    reduce: R,
    output: Seq<Single>,
    i: int,
    ahead: Single,
    behind: Single,
)
    requires
        is_line_comb(input, line_len, limit, stand_out, reduce, output),
        0 <= i < input.len(),
        ahead == input[(i + line_len) % input.len() as int],
        behind == input[(i - line_len) % input.len() as int],
        limit.opposite().at_most(limit),
    ensures
        output.len() == input.len(),
        exists|sum: Single, held: Single|
            {
                &&& #[trigger] stand_out.ensures((input[i], ahead, behind), sum)
                &&& #[trigger] reduce.ensures((input[i], held), output[i])
                &&& sum.nan() ==> held == sum
                &&& !sum.nan() && -limit.steps() <= sum.steps() <= limit.steps() ==> held == sum
                &&& !sum.nan() && sum.steps() < -limit.steps() ==> held.steps() == -limit.steps()
                &&& !sum.nan() && sum.steps() > limit.steps() ==> held.steps() == limit.steps()
            },
{
    assert(i - (-line_len) == i + line_len);
    assert(rolled(input, -line_len)[i] == ahead);
    assert(rolled(input, line_len)[i] == behind);
    assert(is_combed_sample(input[i], ahead, behind, limit, stand_out, reduce, output[i]));
    let sum = choose|sum: Single| #[trigger]
        stand_out.ensures((input[i], ahead, behind), sum) && reduce.ensures(
            (input[i], sum.clipped(limit.opposite(), limit)),
            output[i],
        );
    let held = sum.clipped(limit.opposite(), limit);
    law_single_order_is_numeric(limit, limit);
    if !sum.nan() {
        law_single_order_is_numeric(sum, limit.opposite());
        law_single_order_is_numeric(limit, sum);
    }
    assert(stand_out.ensures((input[i], ahead, behind), sum) && reduce.ensures(
        (input[i], held),
        output[i],
    ));
}

} // verus!
