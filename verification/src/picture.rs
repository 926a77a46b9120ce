//! The geometry of a picture: where its lines lie in the signal, and what is
//! measured in them.
use crate::double::{
    law_integers_are_held_in_range, law_order_is_numeric, law_whole_numbers_are_near, unit, Double,
    Single,
};
use crate::field::DecodedField;
use crate::rank::{
    in_order, law_middle_is_that_of_ascending_keys, law_order_is_ascending, lemma_order_keeps_len,
    median_from_values, middle, sort_keys, Median,
};
use vstd::arithmetic::power2::{
    lemma2_to64, lemma2_to64_rest, lemma_pow2_adds, lemma_pow2_pos, pow2,
};
use vstd::prelude::*;
use vstd::slice::{slice_subrange, slice_to_vec};

verus! {

/// The line locations of a field are not known.
#[derive(Clone, Copy, Debug, PartialEq, Eq, Structural)]
pub struct MissingLinelocs;

/// The whole number nearest to `number` in the range of an `isize`.
pub open spec fn held_isize(number: int) -> int {
    if number < isize::MIN {
        isize::MIN as int
    } else if number > isize::MAX {
        isize::MAX as int
    } else {
        number
    }
}

fn hold_isize(number: i64) -> (held: isize)
    ensures
        held == held_isize(number as int),
{
    if number < isize::MIN as i64 {
        isize::MIN
    } else if number > isize::MAX as i64 {
        isize::MAX
    } else {
        number as isize
    }
}

/// The first sample of the colour burst.
pub open spec fn burst_start(start: Double) -> int {
    held_isize(start.floor_i64() as int)
}

/// The sample behind the colour burst.
pub open spec fn burst_end(end: Double) -> int {
    held_isize(end.ceil_i64() as int)
}

/// Whether the margin of the colour burst can be addressed.
pub open spec fn burst_fits(start: Double, end: Double) -> bool {
    burst_start(start) - 5 >= isize::MIN && burst_end(end) + 10 <= isize::MAX
}

/// The colour burst with its margin.
pub open spec fn padded_burst(start: Double, end: Double) -> (int, int) {
    (burst_start(start) - 5, burst_end(end) + 10)
}

/// Tells whether the margin of the colour burst can be addressed.
pub fn can_pad_burst(start: Double, end: Double) -> (answer: bool)
    ensures
        answer == burst_fits(start, end),
{
    hold_isize(start.floor_to_i64()) >= isize::MIN + 5 && hold_isize(end.ceil_to_i64())
        <= isize::MAX - 10
}

/// The colour burst, in samples, with the small margin that locking on to it and
/// bringing the colour back up both use. Parts of samples at either end count as
/// whole ones.
pub fn padded_burst_area(start: Double, end: Double) -> (area: (isize, isize))
    requires
        burst_fits(start, end),
    ensures
        area.0 == padded_burst(start, end).0,
        area.1 == padded_burst(start, end).1,
{
    (hold_isize(start.floor_to_i64()) - 5, hold_isize(end.ceil_to_i64()) + 10)
}

/// Confidence in a field with a jump between its lines.
pub const CONFIDENCE_JUMP: i64 = 45;

/// Confidence in a field without one.
pub const CONFIDENCE_FULL: i64 = 100;

/// The line behind the last one that is looked at.
pub open spec fn lines_end<D>(field: DecodedField<D>) -> int {
    let count = match field.linecount {
        Some(count) => count as int,
        None => 0,
    };
    let len = field.linelocs->0@.len() as int;
    if field.lineoffset + count < len {
        field.lineoffset + count
    } else {
        len
    }
}

pub open spec fn lesser(a: i64, b: i64) -> i64 {
    if a <= b {
        a
    } else {
        b
    }
}

/// Bit pattern of the greatest change of the spacing of lines that is no jump, four
/// samples.
pub const JUMP: u64 = 0x4010_0000_0000_0000;

/// Whether `curves` is what `curve` gives for every three lines in a row from line
/// `from` on.
pub open spec fn are_curves<C: Fn(Double, Double, Double) -> Double>(
    lines: Seq<Double>,
    from: int,
    curve: C,
    curves: Seq<Double>,
) -> bool {
    forall|k: int|
        0 <= k < curves.len() ==> curve.ensures(
            (lines[from + k], lines[from + k + 1], lines[from + k + 2]),
            #[trigger] curves[k],
        )
}

/// Whether the spacing of lines jumps anywhere.
pub open spec fn has_jump(curves: Seq<Double>) -> bool {
    exists|k: int|
        0 <= k < curves.len() && Double { bits: JUMP }.below(#[trigger] curves[k])
}

/// Whether the lines of a field can be counted, where their locations are known.
pub open spec fn lines_fit<D>(field: DecodedField<D>) -> bool {
    field.linelocs is Some && field.linecount is Some ==> field.lineoffset + field.linecount->0
        <= usize::MAX
}

/// Tells whether the lines of a field can be counted, where their locations are known.
pub fn can_judge_lines<D>(field: &DecodedField<D>) -> (answer: bool)
    ensures
        answer == lines_fit(*field),
{
    match (&field.linelocs, field.linecount) {
        (Some(_), Some(count)) => count <= usize::MAX - field.lineoffset,
        _ => true,
    }
}

/// Whether `confidence` is the one in a field by the spacing of its lines: the measured
/// one where fewer than three are known, otherwise no more than the lines allow.
pub open spec fn is_confidence<D, C: Fn(Double, Double, Double) -> Double>(
    field: DecodedField<D>,
    curve: C,
    confidence: Result<i64, MissingLinelocs>,
) -> bool {
    &&& confidence is Err <==> field.linelocs is None
    &&& confidence matches Ok(value) ==> {
        let from = field.lineoffset as int;
        let to = lines_end(field) - 2;
        if to <= from {
            value == field.sync_confidence
        } else {
            exists|curves: Seq<Double>|
                {
                    &&& #[trigger] are_curves(field.linelocs->0@, from, curve, curves)
                    &&& curves.len() == to - from
                    &&& value == lesser(
                        field.sync_confidence,
                        if has_jump(curves) {
                            CONFIDENCE_JUMP
                        } else {
                            CONFIDENCE_FULL
                        },
                    )
                }
        }
    }
}

/// Lowers the confidence in a field by how evenly its lines are spaced. `curve`
/// takes the locations of three lines in a row, and says by how much the spacing
/// grows from the first two to the last two.
pub fn sync_confidence_from_linelocs<D, C: Fn(Double, Double, Double) -> Double>(
    field: &DecodedField<D>,
    curve: C,
) -> (confidence: Result<i64, MissingLinelocs>)
    requires
        lines_fit(*field),
        forall|a: Double, b: Double, c: Double| curve.requires((a, b, c)),
    ensures
        is_confidence(*field, curve, confidence),
{
    let lines: &Vec<Double> = match &field.linelocs {
        Some(lines) => lines,
        None => {
            return Err(MissingLinelocs);
        },
    };
    let count: usize = match field.linecount {
        Some(count) => count,
        None => 0,
    };
    let behind: usize = field.lineoffset + count;
    let end: usize = if behind < lines.len() {
        behind
    } else {
        lines.len()
    };
    if end.saturating_sub(field.lineoffset) < 3 {
        return Ok(field.sync_confidence);
    }
    let most = Double { bits: JUMP };
    let mut jumps: bool = false;
    let ghost mut curves: Seq<Double> = Seq::empty();
    let mut i: usize = field.lineoffset;
    while i < end - 2
        invariant
            field.lineoffset <= i <= end - 2,
            3 <= end <= lines@.len(),
            most == (Double { bits: JUMP }),
            forall|a: Double, b: Double, c: Double| curve.requires((a, b, c)),
            curves.len() == i - field.lineoffset,
            are_curves(lines@, field.lineoffset as int, curve, curves),
            jumps == has_jump(curves),
        decreases end - i,
    {
        let change: Double = curve(lines[i], lines[i + 1], lines[i + 2]);
        let ghost known = curves;
        proof {
            curves = curves.push(change);
        }
        if most.lt(change) {
            jumps = true;
            assert(most.below(curves[known.len() as int]));
        }
        proof {
            if has_jump(known) {
                let k = choose|k: int|
                    0 <= k < known.len() && Double { bits: JUMP }.below(#[trigger] known[k]);
                assert(curves[k] == known[k]);
            }
            assert(has_jump(curves) ==> has_jump(known) || most.below(change)) by {
                if has_jump(curves) {
                    let k = choose|k: int|
                        0 <= k < curves.len() && Double { bits: JUMP }.below(#[trigger] curves[k]);
                    if k < known.len() {
                        assert(known[k] == curves[k]);
                    }
                }
            }
        }
        i += 1;
    }
    let limit: i64 = if jumps {
        CONFIDENCE_JUMP
    } else {
        CONFIDENCE_FULL
    };
    if field.sync_confidence <= limit {
        Ok(field.sync_confidence)
    } else {
        Ok(limit)
    }
}

/// Samples at either end of the back porch that are left out.
pub const BACKPORCH_PADDING: usize = 4;

/// Whether a picture has lines with a back porch to measure.
pub open spec fn has_backporch<D>(field: DecodedField<D>) -> bool {
    &&& field.outlinecount > 0
    &&& field.outlinelen > 0
    &&& field.ire0_backporch.0 + BACKPORCH_PADDING < field.ire0_backporch.1 - BACKPORCH_PADDING
}

/// The back porch of a line of a picture.
pub open spec fn backporch<D>(picture: Seq<i64>, field: DecodedField<D>, line: int) -> Seq<i64> {
    let start = line * field.outlinelen;
    picture.subrange(
        start + field.ire0_backporch.0 + BACKPORCH_PADDING,
        start + field.ire0_backporch.1 - BACKPORCH_PADDING,
    )
}

/// Whether the back porch of every line lies in a picture of `len` samples.
pub open spec fn backporches_inside<D>(field: DecodedField<D>, len: int) -> bool {
    (field.outlinecount - 1) * field.outlinelen + field.ire0_backporch.1 - BACKPORCH_PADDING <= len
}

/// Whether the back porches of a field can be looked for in a picture of `len`
/// samples: their bounds are numbers, and where there are several lines, all of them
/// lie in the picture.
pub open spec fn porches_fit<D>(field: DecodedField<D>, len: int) -> bool {
    &&& field.ire0_backporch.0 + BACKPORCH_PADDING <= usize::MAX
    &&& field.ire0_backporch.1 >= BACKPORCH_PADDING
    &&& has_backporch(field) && field.outlinecount > 1 ==> backporches_inside(field, len)
}

/// Tells whether the back porches of a field can be looked for in a picture of `len`
/// samples.
pub fn can_adjust_ire0<D>(field: &DecodedField<D>, len: usize) -> (answer: bool)
    ensures
        answer == porches_fit(*field, len as int),
{
    let (first, last): (usize, usize) = field.ire0_backporch;
    if first > usize::MAX - BACKPORCH_PADDING || last < BACKPORCH_PADDING {
        return false;
    }
    let to: usize = last - BACKPORCH_PADDING;
    if field.outlinecount <= 1 || field.outlinelen == 0 || first + BACKPORCH_PADDING >= to {
        return true;
    }
    proof {
        assert(0 <= (field.outlinecount - 1) * field.outlinelen <= u64::MAX * u64::MAX)
            by (nonlinear_arith)
            requires
                1 <= field.outlinecount <= u64::MAX,
                0 <= field.outlinelen <= u64::MAX,
        ;
    }
    let start: u128 = (field.outlinecount as u128 - 1) * field.outlinelen as u128;
    start + to as u128 <= len as u128
}

/// Whether `level` is the median of `samples`; `average` takes the mean of the
/// middle two.
pub open spec fn is_level<A: Fn(i64, i64) -> i64>(
    samples: Seq<i64>,
    average: A,
    level: i64,
) -> bool {
    match middle(samples) {
        Median::Nothing => false,
        Median::One(key) => level == key,
        Median::Two(low, high) => average.ensures((low, high), level),
    }
}

/// Whether `levels` holds the level of the back porch of every line.
pub open spec fn are_levels<D, A: Fn(i64, i64) -> i64>(
    picture: Seq<i64>,
    field: DecodedField<D>,
    average: A,
    levels: Seq<i64>,
) -> bool {
    forall|line: int|
        0 <= line < levels.len() ==> is_level(
            backporch(picture, field, line),
            average,
            #[trigger] levels[line],
        )
}

/// Whether `found` holds, of the levels of the back porches of all lines, those that are
/// neither among the lowest nor among the highest third, in order.
pub open spec fn are_middle_levels<D, A: Fn(i64, i64) -> i64>(
    picture: Seq<i64>,
    field: DecodedField<D>,
    average: A,
    found: Seq<i64>,
) -> bool {
    let count = field.outlinecount as int;
    if count == 1 {
        found.len() == 0
    } else {
        exists|all: Seq<i64>|
            all.len() == count && #[trigger] are_levels(picture, field, average, all) && found
                == in_order(all).subrange(count / 3, count * 2 / 3)
    }
}

/// Finds the blanking level in a picture: the levels of the back porches, of
/// which the lowest and the highest third are left out. `None` where there is
/// nothing to measure. Samples and levels are given by keys that are ordered as
/// they are; `average` gives the key of the mean of two samples.
pub fn ire0_adjust_from_picture<D, A: Fn(i64, i64) -> i64>(
    picture: &[i64],
    field: &DecodedField<D>,
    average: A,
) -> (levels: Option<Vec<i64>>)
    requires
        porches_fit(*field, picture@.len() as int),
        forall|a: i64, b: i64| average.requires((a, b)),
    ensures
        levels is Some <==> has_backporch(*field),
        levels matches Some(found) ==> are_middle_levels(picture@, *field, average, found@),
{
    let from: usize = field.ire0_backporch.0 + BACKPORCH_PADDING;
    let to: usize = field.ire0_backporch.1 - BACKPORCH_PADDING;
    let count: usize = field.outlinecount;
    if count == 0 || field.outlinelen == 0 || from >= to {
        return None;
    }
    if count == 1 {
        return Some(Vec::new());
    }
    let ghost len: usize = picture.len();
    let mut levels: Vec<i64> = Vec::with_capacity(count);
    let mut line_start: usize = 0;
    let mut line: usize = 0;
    while line < count
        invariant
            line <= count,
            count == field.outlinecount,
            field.outlinelen > 0,
            from == field.ire0_backporch.0 + BACKPORCH_PADDING,
            to == field.ire0_backporch.1 - BACKPORCH_PADDING,
            from < to,
            backporches_inside(*field, picture@.len() as int),
            len == picture@.len(),
            line < count ==> line_start == line * field.outlinelen,
            forall|a: i64, b: i64| average.requires((a, b)),
            levels@.len() == line,
            are_levels(picture@, *field, average, levels@),
        decreases count - line,
    {
        proof {
            assert(line * field.outlinelen <= (count - 1) * field.outlinelen) by (nonlinear_arith)
                requires
                    line <= count - 1,
            ;
        }
        let mut samples: Vec<i64> = slice_to_vec(
            slice_subrange(picture, line_start + from, line_start + to),
        );
        let median: Median = median_from_values(samples.as_mut_slice());
        let level: i64 = match median {
            Median::One(key) => key,
            Median::Two(low, high) => average(low, high),
            Median::Nothing => 0,
        };
        assert(is_level(backporch(picture@, *field, line as int), average, level));
        levels.push(level);
        line += 1;
        if line < count {
            proof {
                assert(line * field.outlinelen == (line - 1) * field.outlinelen + field.outlinelen
                    && line * field.outlinelen <= (count - 1) * field.outlinelen)
                    by (nonlinear_arith)
                    requires
                        line <= count - 1,
                ;
            }
            line_start += field.outlinelen;
        }
    }
    let ghost all = levels@;
    let ordered: Vec<i64> = sort_keys(levels);
    proof {
        lemma_order_keeps_len(all);
    }
    // Two thirds of the lines, without doubling their number.
    let start: usize = count / 3;
    let end: usize = count / 3 * 2 + count % 3 * 2 / 3;
    Some(slice_to_vec(slice_subrange(ordered.as_slice(), start, end)))
}

/// Bit pattern of the limit of the level adjustment for wow, fifteen.
pub const LEVEL_ADJUST_THRESHOLD: u64 = 0x402E_0000_0000_0000;

/// What scaling a field to its lines is to be done with.
#[derive(Debug)]
pub struct ScalePlan {
    /// Where the lines are.
    pub actual_linelocs: Vec<Double>,
    /// Where they would be without wow.
    pub expected_linelocs: Vec<Double>,
    pub spline_degree: usize,
    pub out_len: usize,
    pub outwidth: usize,
    pub lineoffset: usize,
    /// Points to evaluate the spline at.
    pub eval_count: usize,
    pub use_burst_channel: bool,
    pub wow_level_adjust_smoothing: Single,
    pub level_adjust_threshold: Double,
    pub cached_median_mad: Option<(Double, Double)>,
}

/// The value, or the default where there is none.
pub open spec fn or_else(value: Option<usize>, default: usize) -> usize {
    match value {
        Some(value) => value,
        None => default,
    }
}

/// The line locations that are given, or else those of the field.
pub open spec fn lines_of<D>(lineinfo: Option<Seq<Double>>, field: DecodedField<D>) -> Seq<Double> {
    match lineinfo {
        Some(lines) => lines,
        None => field.linelocs->0@,
    }
}

/// Whether `plan` is that of scaling `field`, with what is given of line locations
/// and sizes, and what is the field's own of the rest.
pub open spec fn is_scale_plan<D, P: Fn(usize) -> Double>(
    plan: ScalePlan,
    field: DecodedField<D>,
    lineinfo: Option<Seq<Double>>,
    linesout: Option<usize>,
    outwidth: Option<usize>,
    use_burst_channel: bool,
    nominal: P,
) -> bool {
    &&& plan.actual_linelocs@ == lines_of(lineinfo, field)
    &&& plan.expected_linelocs@.len() == plan.actual_linelocs@.len()
    &&& forall|i: int|
        0 <= i < plan.expected_linelocs@.len() ==> nominal.ensures(
            (i as usize,),
            #[trigger] plan.expected_linelocs@[i],
        )
    &&& plan.spline_degree == field.spline_degree
    &&& plan.outwidth == or_else(outwidth, field.outlinelen)
    &&& plan.out_len == or_else(linesout, field.outlinecount) * plan.outwidth
    &&& plan.lineoffset == field.lineoffset
    // The lines of the field, and those before its first one.
    &&& plan.eval_count == (field.outlinecount + field.lineoffset + 1) * field.outlinelen
    &&& plan.use_burst_channel == use_burst_channel
    &&& plan.wow_level_adjust_smoothing == field.wow_level_adjust_smoothing
    &&& plan.level_adjust_threshold == (Double { bits: LEVEL_ADJUST_THRESHOLD })
    &&& plan.cached_median_mad == field.wow_analysis
}

/// Whether the sizes of a scaling can be addressed.
pub open spec fn sizes_fit<D>(
    field: DecodedField<D>,
    linesout: Option<usize>,
    outwidth: Option<usize>,
) -> bool {
    &&& or_else(linesout, field.outlinecount) * or_else(outwidth, field.outlinelen) <= usize::MAX
    &&& (field.outlinecount + field.lineoffset + 1) * field.outlinelen <= usize::MAX
    &&& field.lineoffset < usize::MAX
}

/// Tells whether the sizes of a scaling can be addressed.
pub fn can_scale<D>(
    field: &DecodedField<D>,
    linesout: Option<usize>,
    outwidth: Option<usize>,
) -> (answer: bool)
    ensures
        answer == sizes_fit(*field, linesout, outwidth),
{
    let width: usize = match outwidth {
        Some(width) => width,
        None => field.outlinelen,
    };
    let lines: usize = match linesout {
        Some(lines) => lines,
        None => field.outlinecount,
    };
    if field.lineoffset == usize::MAX || lines.checked_mul(width).is_none() {
        return false;
    }
    match field.outlinecount.checked_add(field.lineoffset + 1) {
        Some(rows) => rows.checked_mul(field.outlinelen).is_some(),
        None => {
            proof {
                let rows = field.outlinecount + field.lineoffset + 1;
                assert(field.outlinelen > 0 ==> rows * field.outlinelen >= rows)
                    by (nonlinear_arith)
                    requires
                        rows >= 0,
                ;
                assert(field.outlinelen == 0 ==> rows * field.outlinelen == 0)
                    by (nonlinear_arith);
            }
            field.outlinelen == 0
        },
    }
}

/// Why a field was not scaled.
#[derive(Clone, Copy, Debug, PartialEq, Eq)]
pub enum ScaleError<E> {
    /// Its line locations are not known.
    MissingLinelocs,
    /// The scaling itself failed.
    Failed(E),
}

/// The line locations that are given.
pub open spec fn given_lines(lineinfo: Option<&[Double]>) -> Option<Seq<Double>> {
    match lineinfo {
        Some(lines) => Some(lines@),
        None => None,
    }
}

/// Whether scaling `before` gives `scaled` and leaves `after`: without line
/// locations it fails, otherwise what comes of it is what `scale` makes of the
/// plan, and the field keeps what was found of the wow.
pub open spec fn is_downscaled<
    D,
    T,
    E,
    P: Fn(usize) -> Double,
    S: Fn(&D, &ScalePlan) -> Result<(Vec<T>, Double, Double), E>,
>(
    before: DecodedField<D>,
    lineinfo: Option<Seq<Double>>,
    linesout: Option<usize>,
    outwidth: Option<usize>,
    use_burst_channel: bool,
    nominal: P,
    scale: S,
    scaled: Result<Vec<T>, ScaleError<E>>,
    after: DecodedField<D>,
) -> bool {
    if lineinfo is None && before.linelocs is None {
        &&& scaled == Err::<Vec<T>, ScaleError<E>>(ScaleError::MissingLinelocs)
        &&& after == before
    } else {
        exists|plan: ScalePlan, outcome: Result<(Vec<T>, Double, Double), E>|
            {
                &&& is_scale_plan(
                    plan,
                    before,
                    lineinfo,
                    linesout,
                    outwidth,
                    use_burst_channel,
                    nominal,
                )
                &&& #[trigger] scale.ensures((&before.data, &plan), outcome)
                &&& match outcome {
                    Ok((samples, median, mad)) => {
                        &&& scaled == Ok::<Vec<T>, ScaleError<E>>(samples)
                        &&& after == (DecodedField {
                            wow_analysis: Some((median, mad)),
                            ..before
                        })
                    },
                    Err(error) => {
                        &&& scaled == Err::<Vec<T>, ScaleError<E>>(ScaleError::Failed(error))
                        &&& after == before
                    },
                }
            }
    }
}

fn plan_scaling<D, P: Fn(usize) -> Double>(
    field: &DecodedField<D>,
    lineinfo: Option<&[Double]>,
    linesout: Option<usize>,
    outwidth: Option<usize>,
    use_burst_channel: bool,
    nominal: &P,
) -> (plan: Option<ScalePlan>)
    requires
        lineinfo is Some || field.linelocs is Some ==> sizes_fit(*field, linesout, outwidth),
        forall|i: usize|
            i < lines_of(given_lines(lineinfo), *field).len() ==> nominal.requires((i,)),
    ensures
        plan is None <==> lineinfo is None && field.linelocs is None,
        plan matches Some(plan) ==> is_scale_plan(
            plan,
            *field,
            given_lines(lineinfo),
            linesout,
            outwidth,
            use_burst_channel,
            *nominal,
        ),
{
    let actual_linelocs: Vec<Double> = match lineinfo {
        Some(lines) => slice_to_vec(lines),
        None => match &field.linelocs {
            Some(lines) => slice_to_vec(lines.as_slice()),
            None => {
                return None;
            },
        },
    };
    let width: usize = match outwidth {
        Some(width) => width,
        None => field.outlinelen,
    };
    let lines: usize = match linesout {
        Some(lines) => lines,
        None => field.outlinecount,
    };
    let mut expected_linelocs: Vec<Double> = Vec::with_capacity(actual_linelocs.len());
    let mut i: usize = 0;
    while i < actual_linelocs.len()
        invariant
            i <= actual_linelocs@.len(),
            forall|i: usize| i < actual_linelocs@.len() ==> nominal.requires((i,)),
            expected_linelocs@.len() == i,
            forall|j: int|
                0 <= j < i ==> nominal.ensures((j as usize,), #[trigger] expected_linelocs@[j]),
        decreases actual_linelocs@.len() - i,
    {
        expected_linelocs.push(nominal(i));
        i += 1;
    }
    proof {
        let count = field.outlinecount as int;
        let skip = field.lineoffset as int + 1;
        let len = field.outlinelen as int;
        assert((count + skip) * len == count * len + skip * len && count * len >= 0 && skip * len
            >= 0) by (nonlinear_arith)
            requires
                count >= 0,
                skip >= 0,
                len >= 0,
        ;
    }
    let samples: usize = field.outlinecount * field.outlinelen;
    let skipped: usize = (field.lineoffset + 1) * field.outlinelen;
    Some(
        ScalePlan {
            actual_linelocs,
            expected_linelocs,
            spline_degree: field.spline_degree,
            out_len: lines * width,
            outwidth: width,
            lineoffset: field.lineoffset,
            eval_count: samples + skipped,
            use_burst_channel,
            wow_level_adjust_smoothing: field.wow_level_adjust_smoothing,
            level_adjust_threshold: Double { bits: LEVEL_ADJUST_THRESHOLD },
            cached_median_mad: field.wow_analysis,
        },
    )
}

/// Scales a field to its lines. Line locations and sizes that are not given are
/// those of the field; `nominal` says where a line would be without wow. `scale`
/// does the scaling: it gives the samples, and the median and the spread of the
/// wow factors, which the field keeps for the next scaling.
pub fn downscale_raw_vec<
    D,
    T,
    E,
    P: Fn(usize) -> Double,
    S: Fn(&D, &ScalePlan) -> Result<(Vec<T>, Double, Double), E>,
>(
    field: &mut DecodedField<D>,
    lineinfo: Option<&[Double]>,
    linesout: Option<usize>,
    outwidth: Option<usize>,
    use_burst_channel: bool,
    nominal: P,
    scale: S,
) -> (scaled: Result<Vec<T>, ScaleError<E>>)
    requires
        lineinfo is Some || old(field).linelocs is Some ==> sizes_fit(
            *old(field),
            linesout,
            outwidth,
        ),
        forall|i: usize|
            i < lines_of(given_lines(lineinfo), *old(field)).len() ==> nominal.requires((i,)),
        forall|data: &D, plan: &ScalePlan| scale.requires((data, plan)),
    ensures
        is_downscaled(
            *old(field),
            given_lines(lineinfo),
            linesout,
            outwidth,
            use_burst_channel,
            nominal,
            scale,
            scaled,
            *final(field),
        ),
{
    let plan: ScalePlan = match plan_scaling(
        field,
        lineinfo,
        linesout,
        outwidth,
        use_burst_channel,
        &nominal,
    ) {
        Some(plan) => plan,
        None => {
            return Err(ScaleError::MissingLinelocs);
        },
    };
    let outcome: Result<(Vec<T>, Double, Double), E> = scale(&field.data, &plan);
    assert(scale.ensures((&old(field).data, &plan), outcome));
    match outcome {
        Ok((samples, median, mad)) => {
            field.wow_analysis = Some((median, mad));
            Ok(samples)
        },
        Err(error) => Err(ScaleError::Failed(error)),
    }
}

/// Whether a scaling that is told what was found of the wow hands that back.
pub open spec fn reuses_wow<
    D,
    T,
    E,
    S: Fn(&D, &ScalePlan) -> Result<(Vec<T>, Double, Double), E>,
>(scale: S) -> bool {
    forall|data: &D, plan: &ScalePlan, samples: Vec<T>, median: Double, mad: Double| #[trigger]
        scale.ensures((data, plan), Ok((samples, median, mad))) && plan.cached_median_mad is Some
            ==> plan.cached_median_mad == Some((median, mad))
}

/// The wow is found once: the first scaling that succeeds keeps what it found with
/// the field, and a later one, of either channel, leaves it as it is.
pub proof fn law_wow_is_found_once<
    D,
    T,
    E,
    P: Fn(usize) -> Double,
    Q: Fn(usize) -> Double,
    R: Fn(&D, &ScalePlan) -> Result<(Vec<T>, Double, Double), E>,
    S: Fn(&D, &ScalePlan) -> Result<(Vec<T>, Double, Double), E>,
>(
    field: DecodedField<D>,
    lineinfo: Option<Seq<Double>>,
    linesout: (Option<usize>, Option<usize>),
    outwidth: (Option<usize>, Option<usize>),
    use_burst_channel: (bool, bool),
    nominal: (P, Q),
    scale: (R, S),
    scaled: (Result<Vec<T>, ScaleError<E>>, Result<Vec<T>, ScaleError<E>>),
    once: DecodedField<D>,
    twice: DecodedField<D>,
)
    requires
        is_downscaled(
            field,
            lineinfo,
            linesout.0,
            outwidth.0,
            use_burst_channel.0,
            nominal.0,
            scale.0,
            scaled.0,
            once,
        ),
        is_downscaled(
            once,
            lineinfo,
            linesout.1,
            outwidth.1,
            use_burst_channel.1,
            nominal.1,
            scale.1,
            scaled.1,
            twice,
        ),
        scaled.0 is Ok,
        scaled.1 is Ok,
        reuses_wow(scale.1),
    ensures
        once.wow_analysis is Some,
        twice.wow_analysis == once.wow_analysis,
{
}

/// The two line locations that the length of a line is taken from, and whether
/// they are two lines apart.
pub open spec fn line_ends(line: int, last: int) -> (int, int, bool) {
    if line >= last {
        (line - 1, line, false)
    } else if line > 0 {
        (line - 1, line + 1, true)
    } else {
        (0, 1, false)
    }
}

/// Whether `length` is the length of a line between two line locations.
pub open spec fn is_line_length<S: Fn(Double, Double) -> Double, H: Fn(Double, Double) -> Double>(
    lines: Seq<Double>,
    ends: (int, int, bool),
    span: S,
    half_span: H,
    length: Double,
) -> bool {
    if ends.2 {
        half_span.ensures((lines[ends.0], lines[ends.1]), length)
    } else {
        span.ensures((lines[ends.0], lines[ends.1]), length)
    }
}

/// Whether the locations that the length of a line is taken from are among `count`,
/// where all is known that it takes.
pub open spec fn line_located(
    linecount: Option<usize>,
    lineoffset: usize,
    line: Option<usize>,
    count: Option<int>,
) -> bool {
    line is Some && linecount is Some && count is Some ==> {
        let ends = line_ends(line->0 as int, linecount->0 + lineoffset);
        &&& linecount->0 + lineoffset <= usize::MAX
        &&& 0 <= ends.0
        &&& ends.1 < count->0
    }
}

/// How many line locations are known.
pub open spec fn known_lines(linelocs: Option<&[Double]>) -> Option<int> {
    match linelocs {
        Some(lines) => Some(lines@.len() as int),
        None => None,
    }
}

/// Tells whether the length of a line can be taken.
pub fn can_measure_line(
    linecount: Option<usize>,
    lineoffset: usize,
    line: Option<usize>,
    linelocs: Option<&[Double]>,
) -> (answer: bool)
    ensures
        answer == line_located(linecount, lineoffset, line, known_lines(linelocs)),
{
    match (line, linecount, linelocs) {
        (Some(line), Some(count), Some(lines)) => {
            if count > usize::MAX - lineoffset {
                false
            } else if line >= count + lineoffset {
                0 < line && line < lines.len()
            } else {
                lines.len() > 1 && line < lines.len() - 1
            }
        },
        _ => true,
    }
}

/// Whether `freq` is the frequency of a line.
pub open spec fn is_linefreq<
    S: Fn(Double, Double) -> Double,
    H: Fn(Double, Double) -> Double,
    M: Fn(Double) -> Double,
>(
    linelen: Double,
    linecount: Option<usize>,
    lineoffset: usize,
    line: Option<usize>,
    lines: Option<Seq<Double>>,
    span: S,
    half_span: H,
    scale: M,
    freq: Double,
) -> bool {
    if line is Some && linecount is Some && lines is Some {
        let ends = line_ends(line->0 as int, linecount->0 + lineoffset);
        exists|length: Double|
            {
                &&& #[trigger] is_line_length(lines->0, ends, span, half_span, length)
                &&& scale.ensures(
                    (if length.at_most(Double { bits: 0 }) {
                        linelen
                    } else {
                        length
                    },),
                    freq,
                )
            }
    } else {
        // The given length stands whatever its sign.
        scale.ensures((linelen,), freq)
    }
}

/// The frequency of a line: its length in line lengths, or `linelen` where it
/// is not known or not positive, times the samples of a line. `span` and
/// `half_span` give the distance of two line locations and half of it; `scale`
/// multiplies by the samples of a line.
pub fn get_linefreq<
    S: Fn(Double, Double) -> Double,
    H: Fn(Double, Double) -> Double,
    M: Fn(Double) -> Double,
>(
    linelen: Double,
    linecount: Option<usize>,
    lineoffset: usize,
    line: Option<usize>,
    linelocs: Option<&[Double]>,
    span: S,
    half_span: H,
    scale: M,
) -> (freq: Double)
    requires
        line_located(linecount, lineoffset, line, known_lines(linelocs)),
        forall|a: Double, b: Double| span.requires((a, b)),
        forall|a: Double, b: Double| half_span.requires((a, b)),
        forall|length: Double| scale.requires((length,)),
    ensures
        is_linefreq(
            linelen,
            linecount,
            lineoffset,
            line,
            given_lines(linelocs),
            span,
            half_span,
            scale,
            freq,
        ),
{
    let mut length: Double = linelen;
    if let (Some(line), Some(count), Some(lines)) = (line, linecount, linelocs) {
        let ghost ends = line_ends(line as int, count + lineoffset);
        length =
        if line >= count + lineoffset {
            span(lines[line - 1], lines[line])
        } else if line > 0 {
            half_span(lines[line - 1], lines[line + 1])
        } else {
            span(lines[0], lines[1])
        };
        assert(is_line_length(lines@, ends, span, half_span, length));
    }
    let used: Double = if length.le(Double { bits: 0 }) {
        linelen
    } else {
        length
    };
    let freq: Double = scale(used);
    proof {
        if line is Some && linecount is Some && linelocs is Some {
            let ends = line_ends(line->0 as int, linecount->0 + lineoffset);
            assert(is_line_length(given_lines(linelocs)->0, ends, span, half_span, length));
        }
    }
    freq
}

/// The limits are what they are said to be: a jump is a change by more than four
/// samples, and the level is adjusted for wow up to fifteen.
pub proof fn law_limits_are_whole_numbers()
    ensures
        (Double { bits: JUMP }).steps() == 4 * unit(),
        (Double { bits: LEVEL_ADJUST_THRESHOLD }).steps() == 15 * unit(),
        BACKPORCH_PADDING == 4,
        CONFIDENCE_JUMP == 45,
        CONFIDENCE_FULL == 100,
{
    lemma2_to64();
    lemma2_to64_rest();
    lemma_pow2_adds(50, 1024);
    lemma_pow2_adds(49, 1025);
    let jump = Double { bits: JUMP };
    assert(jump.mantissa() == 0x10_0000_0000_0000 && jump.exponent() == -50);
    assert(0x10_0000_0000_0000 * pow2(1024) == 4 * (0x4_0000_0000_0000 * pow2(1024)))
        by (nonlinear_arith);
    let limit = Double { bits: LEVEL_ADJUST_THRESHOLD };
    assert(limit.mantissa() == 0x1E_0000_0000_0000 && limit.exponent() == -49);
    assert(0x1E_0000_0000_0000 * pow2(1025) == 15 * (0x2_0000_0000_0000 * pow2(1025)))
        by (nonlinear_arith);
}

/// Lines jump exactly if the spacing of some three in a row, all of them in the given
/// order, grows by more than four samples.
pub proof fn law_jumps_are_more_than_four(curves: Seq<Double>)
    ensures
        has_jump(curves) <==> exists|k: int|
            0 <= k < curves.len() && !(#[trigger] curves[k]).nan() && curves[k].steps() > 4
                * unit(),
{
    let limit = Double { bits: JUMP };
    law_limits_are_whole_numbers();
    assert forall|k: int| 0 <= k < curves.len() implies (limit.below(#[trigger] curves[k])
        <==> !curves[k].nan() && curves[k].steps() > 4 * unit()) by {
        if !curves[k].nan() {
            law_order_is_numeric(limit, curves[k]);
        }
    }
}

/// The lines that are looked at end with the lines of the field, or with the locations
/// that are known, whichever are fewer. Of two confidences the lesser counts.
pub proof fn law_lines_end_with_the_field<D>(field: DecodedField<D>, a: i64, b: i64)
    ensures
        ({
            let count = if field.linecount is Some {
                field.linecount->0 as int
            } else {
                0
            };
            let end = lines_end(field);
            let known = field.linelocs->0@.len();
            &&& end <= field.lineoffset + count
            &&& end <= known
            &&& end == field.lineoffset + count || end == known
        }),
        lesser(a, b) <= a,
        lesser(a, b) <= b,
        lesser(a, b) == a || lesser(a, b) == b,
        lines_fit(field) <==> field.linelocs is None || field.linecount is None
            || field.lineoffset + field.linecount->0 <= usize::MAX,
{
}

/// The colour burst takes in the samples that it has a part of: it begins at the sample
/// at or before its start, and ends at the one at or behind its end. What is no number
/// counts as zero.
pub proof fn law_burst_takes_in_its_samples(start: Double, end: Double)
    ensures
        start.nan() ==> burst_start(start) == 0,
        end.nan() ==> burst_end(end) == 0,
        !start.nan() && isize::MIN < burst_start(start) < isize::MAX ==> burst_start(start)
            * unit() <= start.steps() < (burst_start(start) + 1) * unit(),
        !end.nan() && isize::MIN < burst_end(end) < isize::MAX ==> (burst_end(end) - 1) * unit()
            < end.steps() <= burst_end(end) * unit(),
        !start.nan() && burst_start(start) == isize::MAX ==> start.steps() >= isize::MAX * unit(),
        !start.nan() && burst_start(start) == isize::MIN ==> start.steps() < (isize::MIN + 1)
            * unit(),
        !end.nan() && burst_end(end) == isize::MAX ==> end.steps() > (isize::MAX - 1) * unit(),
        !end.nan() && burst_end(end) == isize::MIN ==> end.steps() <= isize::MIN * unit(),
        burst_fits(start, end) <==> isize::MIN + 5 <= burst_start(start) && burst_end(end)
            <= isize::MAX - 10,
{
    law_integers_are_held_in_range(start);
    law_integers_are_held_in_range(end);
    law_whole_numbers_are_near(start);
    law_whole_numbers_are_near(end);
    lemma_pow2_pos(1074);
    let one = unit();
    let low = start.floor();
    let high = end.ceil();
    assert(low >= isize::MAX ==> low * one >= isize::MAX * one) by (nonlinear_arith)
        requires
            one > 0,
    ;
    assert(low <= isize::MIN ==> (low + 1) * one <= (isize::MIN + 1) * one) by (nonlinear_arith)
        requires
            one > 0,
    ;
    assert(high >= isize::MAX ==> (high - 1) * one >= (isize::MAX - 1) * one)
        by (nonlinear_arith)
        requires
            one > 0,
    ;
    assert(high <= isize::MIN ==> high * one <= isize::MIN * one) by (nonlinear_arith)
        requires
            one > 0,
    ;
}

/// The back porch of a line is what lies between its bounds in that line, without four
/// samples at either end. Every sample of it is one of the picture, as many lines down
/// as the line is.
pub proof fn law_back_porches_lie_in_their_lines<D>(
    picture: Seq<i64>,
    field: DecodedField<D>,
    line: int,
    k: int,
)
    requires
        porches_fit(field, picture.len() as int),
        has_backporch(field),
        field.outlinecount > 1,
        0 <= line < field.outlinecount,
        0 <= k < field.ire0_backporch.1 - field.ire0_backporch.0 - 8,
    ensures
        backporch(picture, field, line).len() == field.ire0_backporch.1 - field.ire0_backporch.0
            - 8,
        0 <= line * field.outlinelen + field.ire0_backporch.0 + 4 + k < picture.len(),
        backporch(picture, field, line)[k] == picture[line * field.outlinelen
            + field.ire0_backporch.0 + 4 + k],
{
    let start = line * field.outlinelen;
    assert(0 <= start <= (field.outlinecount - 1) * field.outlinelen) by (nonlinear_arith)
        requires
            0 <= line <= field.outlinecount - 1,
            start == line * field.outlinelen,
            field.outlinelen >= 0,
    ;
}

/// There are back porches to measure where a picture has lines, lines have samples, and
/// more than eight of them are of the back porch. The porches of several lines fit into
/// a picture exactly if that of the last line ends in it.
pub proof fn law_back_porches_are_wide_enough<D>(field: DecodedField<D>, len: int)
    requires
        field.ire0_backporch.0 + 4 <= usize::MAX,
        field.ire0_backporch.1 >= 4,
    ensures
        has_backporch(field) <==> field.outlinecount >= 1 && field.outlinelen >= 1
            && field.ire0_backporch.1 - field.ire0_backporch.0 > 8,
        porches_fit(field, len) <==> !has_backporch(field) || field.outlinecount == 1 || (
        field.outlinecount - 1) * field.outlinelen + field.ire0_backporch.1 <= len + 4,
{
}

/// A field is scaled with what is given, and with what is its own of the rest: the line
/// locations, the lines and the width of the picture. The spline is evaluated at all
/// samples of the lines of the field, of those before it, and of one more.
pub proof fn law_scaling_takes_what_is_given<D, P: Fn(usize) -> Double>(
    plan: ScalePlan,
    field: DecodedField<D>,
    lineinfo: Option<Seq<Double>>,
    linesout: Option<usize>,
    outwidth: Option<usize>,
    use_burst_channel: bool,
    nominal: P,
)
    requires
        is_scale_plan(
            plan,
            field,
            lineinfo,
            linesout,
            outwidth,
            use_burst_channel,
            nominal,
        ),
    ensures
        lineinfo matches Some(lines) ==> plan.actual_linelocs@ == lines,
        lineinfo is None && field.linelocs is Some ==> plan.actual_linelocs@
            == field.linelocs->0@,
        plan.expected_linelocs@.len() == plan.actual_linelocs@.len(),
        forall|i: usize|
            i < plan.expected_linelocs@.len() ==> nominal.ensures(
                (i,),
                #[trigger] plan.expected_linelocs@[i as int],
            ),
        outwidth matches Some(width) ==> plan.outwidth == width,
        outwidth is None ==> plan.outwidth == field.outlinelen,
        linesout matches Some(lines) ==> plan.out_len == lines * plan.outwidth,
        linesout is None ==> plan.out_len == field.outlinecount * plan.outwidth,
        plan.eval_count == field.outlinecount * field.outlinelen + field.lineoffset
            * field.outlinelen + field.outlinelen,
        plan.lineoffset == field.lineoffset,
        plan.spline_degree == field.spline_degree,
        plan.use_burst_channel == use_burst_channel,
        plan.wow_level_adjust_smoothing == field.wow_level_adjust_smoothing,
        plan.level_adjust_threshold.steps() == 15 * unit(),
        plan.cached_median_mad == field.wow_analysis,
{
    law_limits_are_whole_numbers();
    let count = field.outlinecount as int;
    let offset = field.lineoffset as int;
    let len = field.outlinelen as int;
    assert((count + offset + 1) * len == count * len + offset * len + len) by (nonlinear_arith);
    assert forall|i: usize| i < plan.expected_linelocs@.len() implies nominal.ensures(
        (i,),
        #[trigger] plan.expected_linelocs@[i as int],
    ) by {
        assert(nominal.ensures(((i as int) as usize,), plan.expected_linelocs@[i as int]));
    }
}

/// Scaling changes nothing of a field but what is known of its wow, and that only where
/// it succeeds. It fails for want of line locations exactly if none are given and the
/// field has none; otherwise it succeeds exactly if the scaling itself does, and hands
/// out its samples or its error.
pub proof fn law_scaling_keeps_the_field<
    D,
    T,
    E,
    P: Fn(usize) -> Double,
    S: Fn(&D, &ScalePlan) -> Result<(Vec<T>, Double, Double), E>,
>(
    before: DecodedField<D>,
    lineinfo: Option<Seq<Double>>,
    linesout: Option<usize>,
    outwidth: Option<usize>,
    use_burst_channel: bool,
    nominal: P,
    scale: S,
    scaled: Result<Vec<T>, ScaleError<E>>,
    after: DecodedField<D>,
)
    requires
        is_downscaled(
            before,
            lineinfo,
            linesout,
            outwidth,
            use_burst_channel,
            nominal,
            scale,
            scaled,
            after,
        ),
    ensures
        after == (DecodedField { wow_analysis: after.wow_analysis, ..before }),
        scaled is Err ==> after.wow_analysis == before.wow_analysis,
        (scaled matches Err(error) && error is MissingLinelocs) <==> lineinfo is None
            && before.linelocs is None,
        lineinfo is Some || before.linelocs is Some ==> exists|
            plan: ScalePlan,
            outcome: Result<(Vec<T>, Double, Double), E>,
        |
            {
                &&& is_scale_plan(
                    plan,
                    before,
                    lineinfo,
                    linesout,
                    outwidth,
                    use_burst_channel,
                    nominal,
                )
                &&& #[trigger] scale.ensures((&before.data, &plan), outcome)
                &&& outcome is Ok <==> scaled is Ok
                &&& outcome is Ok ==> scaled->Ok_0 == outcome->Ok_0.0 && after.wow_analysis == Some(
                    (outcome->Ok_0.1, outcome->Ok_0.2),
                )
                &&& outcome is Err ==> scaled->Err_0 == (ScaleError::Failed(outcome->Err_0))
            },
{
}

/// The sizes of a scaling fit if the picture and the points of the spline can be
/// addressed.
pub proof fn law_sizes_fit_if_they_can_be_addressed<D>(
    field: DecodedField<D>,
    lines: usize,
    width: usize,
)
    ensures
        sizes_fit(field, Some(lines), Some(width)) <==> {
            &&& lines * width <= usize::MAX
            &&& field.outlinecount * field.outlinelen + field.lineoffset * field.outlinelen
                + field.outlinelen <= usize::MAX
            &&& field.lineoffset < usize::MAX
        },
        sizes_fit(field, None, Some(width)) == sizes_fit(
            field,
            Some(field.outlinecount),
            Some(width),
        ),
        sizes_fit(field, Some(lines), None) == sizes_fit(
            field,
            Some(lines),
            Some(field.outlinelen),
        ),
        sizes_fit(field, None, None) == sizes_fit(
            field,
            Some(field.outlinecount),
            Some(field.outlinelen),
        ),
{
    let count = field.outlinecount as int;
    let offset = field.lineoffset as int;
    let len = field.outlinelen as int;
    assert((count + offset + 1) * len == count * len + offset * len + len) by (nonlinear_arith);
}

/// The length of a line is taken around it: behind the last line from the one before it
/// to itself, in the first line from itself to the next, and elsewhere from the one
/// before it to the next, which are two lines apart.
pub proof fn law_lines_are_measured_around(line: int, last: int)
    requires
        line >= 0,
    ensures
        ({
            let (from, to, halved) = line_ends(line, last);
            &&& halved <==> 0 < line < last
            &&& from == if line == 0 && last > 0 {
                0
            } else {
                line - 1
            }
            &&& to == if line < last {
                line + 1
            } else {
                line
            }
        }),
{
}

/// The length of a line can be taken where the two locations are known; where something
/// is not known that it takes, it need not be.
pub proof fn law_lines_are_located(
    linecount: usize,
    lineoffset: usize,
    line: usize,
    count: int,
)
    ensures
        line_located(None, lineoffset, Some(line), Some(count)),
        line_located(Some(linecount), lineoffset, None, Some(count)),
        line_located(Some(linecount), lineoffset, Some(line), None),
        line_located(Some(linecount), lineoffset, Some(line), Some(count)) <==> {
            let last = linecount + lineoffset;
            &&& last <= usize::MAX
            &&& line < last ==> line + 1 < count
            &&& line >= last ==> 0 < line < count
        },
{
}

/// The colour burst begins five samples before the sample it starts in, and ends ten
/// behind the one it ends at.
pub proof fn law_burst_has_a_margin(start: Double, end: Double)
    requires
        !start.nan(),
        !end.nan(),
        isize::MIN * unit() < start.steps() < isize::MAX * unit(),
        isize::MIN * unit() < end.steps() < isize::MAX * unit(),
    ensures
        (padded_burst(start, end).0 + 5) * unit() <= start.steps() < (padded_burst(start, end).0
            + 6) * unit(),
        (padded_burst(start, end).1 - 11) * unit() < end.steps() <= (padded_burst(start, end).1
            - 10) * unit(),
{
    law_burst_takes_in_its_samples(start, end);
    law_integers_are_held_in_range(start);
    law_integers_are_held_in_range(end);
    law_whole_numbers_are_near(start);
    law_whole_numbers_are_near(end);
    lemma_pow2_pos(1074);
    let one = unit();
    let low = start.floor();
    let high = end.ceil();
    assert(isize::MIN <= low < isize::MAX) by (nonlinear_arith)
        requires
            low * one <= start.steps() < (low + 1) * one,
            isize::MIN * one < start.steps() < isize::MAX * one,
            one > 0,
    ;
    assert(isize::MIN < high <= isize::MAX) by (nonlinear_arith)
        requires
            (high - 1) * one < end.steps() <= high * one,
            isize::MIN * one < end.steps() < isize::MAX * one,
            one > 0,
    ;
}

/// The confidence in a field is the measured one where fewer than three of its lines are
/// known. Otherwise it is no more than one hundred, and no more than forty-five where
/// the spacing of three lines in a row grows by more than four samples; the lines are
/// those from the offset on. Without line locations there is none.
pub proof fn law_confidence_goes_by_the_lines<D, C: Fn(Double, Double, Double) -> Double>(
    field: DecodedField<D>,
    curve: C,
    confidence: Result<i64, MissingLinelocs>,
    end: int,
)
    requires
        is_confidence(field, curve, confidence),
        field.linelocs is Some,
        end <= field.linelocs->0@.len(),
        end <= field.lineoffset + if field.linecount is Some {
            field.linecount->0 as int
        } else {
            0
        },
        end == field.linelocs->0@.len() || end == field.lineoffset + if field.linecount is Some {
            field.linecount->0 as int
        } else {
            0
        },
    ensures
        confidence is Ok,
        end < field.lineoffset + 3 ==> confidence->Ok_0 == field.sync_confidence,
        end >= field.lineoffset + 3 ==> exists|curves: Seq<Double>|
            {
                &&& curves.len() == end - field.lineoffset - 2
                &&& #[trigger] curves_of_lines(
                    field.linelocs->0@,
                    field.lineoffset as int,
                    curve,
                    curves,
                )
                &&& confidence->Ok_0 <= field.sync_confidence
                &&& (exists|k: int|
                    0 <= k < curves.len() && !(#[trigger] curves[k]).nan() && curves[k].steps() > 4
                        * unit()) ==> confidence->Ok_0 == if field.sync_confidence < 45 {
                    field.sync_confidence as int
                } else {
                    45
                }
                &&& !(exists|k: int|
                    0 <= k < curves.len() && !(#[trigger] curves[k]).nan() && curves[k].steps() > 4
                        * unit()) ==> confidence->Ok_0 == if field.sync_confidence < 100 {
                    field.sync_confidence as int
                } else {
                    100
                }
            },
{
    assert(lines_end(field) == end);
    if end >= field.lineoffset + 3 {
        let from = field.lineoffset as int;
        let curves = choose|curves: Seq<Double>|
            {
                &&& #[trigger] are_curves(field.linelocs->0@, from, curve, curves)
                &&& curves.len() == end - 2 - from
                &&& confidence->Ok_0 == lesser(
                    field.sync_confidence,
                    if has_jump(curves) {
                        CONFIDENCE_JUMP
                    } else {
                        CONFIDENCE_FULL
                    },
                )
            };
        law_jumps_are_more_than_four(curves);
        assert(curves_of_lines(field.linelocs->0@, from, curve, curves)) by {
            assert forall|k: int| 0 <= k < curves.len() implies curve.ensures(
                (lines_at(field.linelocs->0@, from + k)),
                #[trigger] curves[k],
            ) by {
                assert(curve.ensures(
                    (
                        field.linelocs->0@[from + k],
                        field.linelocs->0@[from + k + 1],
                        field.linelocs->0@[from + k + 2],
                    ),
                    curves[k],
                ));
            }
        }
    }
}

/// Three lines in a row.
pub open spec fn lines_at(lines: Seq<Double>, i: int) -> (Double, Double, Double) {
    (lines[i], lines[i + 1], lines[i + 2])
}

/// Whether `curves` is what `curve` gives for every three lines in a row from line
/// `from` on, in this order.
pub open spec fn curves_of_lines<C: Fn(Double, Double, Double) -> Double>(
    lines: Seq<Double>,
    from: int,
    curve: C,
    curves: Seq<Double>,
) -> bool {
    forall|k: int|
        0 <= k < curves.len() ==> curve.ensures(lines_at(lines, from + k), #[trigger] curves[k])
}

/// The levels that a blanking level is taken from are those in the middle: with the
/// levels of all lines in ascending order, the lowest third and the highest third are
/// left out.
pub proof fn law_blanking_levels_are_in_the_middle<D, A: Fn(i64, i64) -> i64>(
    picture: Seq<i64>,
    field: DecodedField<D>,
    average: A,
    found: Seq<i64>,
)
    requires
        are_middle_levels(picture, field, average, found),
        field.outlinecount > 1,
    ensures
        exists|all: Seq<i64>, ascending: Seq<i64>|
            {
                let count = field.outlinecount as int;
                &&& #[trigger] are_levels(picture, field, average, all)
                &&& all.len() == count
                &&& #[trigger] ascending.to_multiset() == all.to_multiset()
                &&& forall|i: int, j: int|
                    0 <= i < j < ascending.len() ==> #[trigger] ascending[i]
                        <= #[trigger] ascending[j]
                &&& ascending.len() == count
                &&& found.len() == count * 2 / 3 - count / 3
                &&& forall|i: int|
                    0 <= i < found.len() ==> #[trigger] found[i] == ascending[count / 3 + i]
            },
{
    let count = field.outlinecount as int;
    let all = choose|all: Seq<i64>|
        all.len() == count && #[trigger] are_levels(picture, field, average, all) && found
            == in_order(all).subrange(count / 3, count * 2 / 3);
    let ascending = in_order(all);
    law_order_is_ascending(all);
    lemma_order_keeps_len(all);
    assert(are_levels(picture, field, average, all));
    assert(ascending.to_multiset() == all.to_multiset());
}

/// The level of a back porch is its median: with its samples in ascending order, the
/// middle one, or what the average of the two around the middle is.
pub proof fn law_levels_are_medians<A: Fn(i64, i64) -> i64>(
    samples: Seq<i64>,
    ascending: Seq<i64>,
    average: A,
    level: i64,
    half: int,
)
    requires
        is_level(samples, average, level),
        ascending.to_multiset() == samples.to_multiset(),
        forall|i: int, j: int|
            0 <= i < j < ascending.len() ==> #[trigger] ascending[i] <= #[trigger] ascending[j],
    ensures
        samples.len() > 0,
        samples.len() == 2 * half + 1 ==> level == ascending[half],
        samples.len() == 2 * half ==> average.ensures(
            (ascending[half - 1], ascending[half]),
            level,
        ),
{
    law_middle_is_that_of_ascending_keys(samples, ascending, half);
}

/// The frequency of a line is its length, scaled: the given length where the line, the
/// lines of the field or their locations are not known, or where the length that is
/// found is not above zero. Behind the last line the length is the span to the line
/// before, in the first line that to the next, and elsewhere half the span between the
/// two.
pub proof fn law_frequencies_go_by_the_lines_around<
    S: Fn(Double, Double) -> Double,
    H: Fn(Double, Double) -> Double,
    M: Fn(Double) -> Double,
>(
    linelen: Double,
    linecount: Option<usize>,
    lineoffset: usize,
    line: Option<usize>,
    lines: Option<Seq<Double>>,
    span: S,
    half_span: H,
    scale: M,
    freq: Double,
)
    requires
        is_linefreq(
            linelen,
            linecount,
            lineoffset,
            line,
            lines,
            span,
            half_span,
            scale,
            freq,
        ),
    ensures
        line is None || linecount is None || lines is None ==> scale.ensures((linelen,), freq),
        line is Some && linecount is Some && lines is Some ==> exists|length: Double|
            {
                &&& #[trigger] spans_line(
                    lines->0,
                    line->0 as int,
                    linecount->0 + lineoffset,
                    span,
                    half_span,
                    length,
                )
                &&& scale.ensures(
                    (if !length.nan() && length.steps() <= 0 {
                        linelen
                    } else {
                        length
                    },),
                    freq,
                )
            },
{
    if line is Some && linecount is Some && lines is Some {
        let ends = line_ends(line->0 as int, linecount->0 + lineoffset);
        let zero = Double { bits: 0 };
        let length = choose|length: Double|
            {
                &&& #[trigger] is_line_length(lines->0, ends, span, half_span, length)
                &&& scale.ensures(
                    (if length.at_most(zero) {
                        linelen
                    } else {
                        length
                    },),
                    freq,
                )
            };
        if !length.nan() {
            law_order_is_numeric(length, zero);
        }
        assert(zero.steps() == 0) by {
            assert(zero.mantissa() == 0);
            assert(zero.mantissa() * pow2(0) == 0) by (nonlinear_arith)
                requires
                    zero.mantissa() == 0,
            ;
        }
        assert(spans_line(
            lines->0,
            line->0 as int,
            linecount->0 + lineoffset,
            span,
            half_span,
            length,
        ));
    }
}

/// Whether `length` is that of the line `at`, of which the first behind the last line is
/// `last`.
pub open spec fn spans_line<S: Fn(Double, Double) -> Double, H: Fn(Double, Double) -> Double>(
    lines: Seq<Double>,
    at: int,
    last: int,
    span: S,
    half_span: H,
    length: Double,
) -> bool {
    &&& at >= last ==> span.ensures((lines[at - 1], lines[at]), length)
    &&& 0 < at < last ==> half_span.ensures((lines[at - 1], lines[at + 1]), length)
    &&& at == 0 && last > 0 ==> span.ensures((lines[0], lines[1]), length)
}

} // verus!
