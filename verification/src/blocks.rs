//! Which blocks of the input a field needs.
use vstd::arithmetic::div_mod::{lemma_div_is_ordered, lemma_fundamental_div_mod};
use vstd::prelude::*;

verus! {

/// Samples in one block of the input.
pub const BLOCKSIZE: usize = 32 * 1024;

/// Samples at the start of a block that its decoding spoils.
pub const BLOCKCUT: usize = 1024;

/// Samples at the end of a block that its decoding spoils.
pub const BLOCKCUT_END: usize = 1024;

/// A stretch of the input: `len` samples from the absolute sample
/// `data_start`. `final_chunk` says that nothing follows it.
#[derive(Clone, Copy, Debug, PartialEq, Eq, Structural)]
pub struct Window {
    pub data_start: u64,
    pub len: usize,
    pub final_chunk: bool,
}

impl Window {
    /// The absolute sample behind the last one.
    pub open spec fn end(self) -> int {
        self.data_start + self.len
    }
}

/// The blocks of a field: block `b` holds the `BLOCKSIZE` samples from the
/// absolute sample `b * usable` on.
#[derive(Clone, Copy, Debug, PartialEq, Eq, Structural)]
pub struct BlockPlan {
    pub readloc: i64,
    pub requested_begin: usize,
    pub requested_end: usize,
    /// The absolute sample where the first block starts.
    pub startloc: usize,
    /// The absolute sample behind the last block.
    pub needed_end: usize,
}

/// The position that a field is read from: never before the input.
pub open spec fn read_position(readloc: i64) -> int {
    if readloc < 0 {
        0
    } else {
        readloc as int
    }
}

/// The first block boundary, in steps of `BLOCKSIZE`, at or before `at`.
pub open spec fn block_begin(at: int) -> int {
    at / BLOCKSIZE as int * BLOCKSIZE
}

/// A block boundary that leaves room for `readlen` samples from `at` on.
pub open spec fn block_end(at: int, readlen: int) -> int {
    block_begin(at) + (readlen / BLOCKSIZE as int + 2) * BLOCKSIZE
}

pub open spec fn requested_begin(at: int, usable: int) -> int {
    block_begin(at) / usable
}

pub open spec fn requested_end(at: int, readlen: int, usable: int) -> int {
    block_end(at, readlen) / usable + 1
}

pub open spec fn needed_end(at: int, readlen: int, usable: int) -> int {
    (requested_end(at, readlen, usable) - 1) * usable + BLOCKSIZE
}

/// The plan for a field of at most `readlen` samples at `readloc`.
pub open spec fn plan_for(readloc: i64, readlen: usize, usable: usize) -> BlockPlan {
    let at = read_position(readloc);
    BlockPlan {
        readloc: at as i64,
        requested_begin: requested_begin(at, usable as int) as usize,
        requested_end: requested_end(at, readlen as int, usable as int) as usize,
        startloc: (requested_begin(at, usable as int) * usable) as usize,
        needed_end: needed_end(at, readlen as int, usable as int) as usize,
    }
}

/// Whether every position of the plan can be addressed.
pub open spec fn plan_fits(readloc: i64, readlen: usize, usable: usize) -> bool {
    let at = read_position(readloc);
    &&& usable > 0
    &&& block_end(at, readlen as int) < usize::MAX
    &&& needed_end(at, readlen as int, usable as int) <= usize::MAX
}

/// Tells whether the plan of a field can be addressed.
pub fn can_plan(readloc: i64, readlen: usize, usable: usize) -> (answer: bool)
    ensures
        answer == plan_fits(readloc, readlen, usable),
{
    if usable == 0 {
        return false;
    }
    let at: u128 = if readloc < 0 {
        0
    } else {
        readloc as u128
    };
    let size: u128 = BLOCKSIZE as u128;
    let begin: u128 = at / size * size;
    let end: u128 = begin + (readlen as u128 / size + 2) * size;
    let ghost step = usable as int;
    proof {
        let at = read_position(readloc);
        assert(begin == block_begin(at));
        assert(end == block_end(at, readlen as int));
        lemma_fundamental_div_mod(end as int, step);
        assert(0 <= end as int / step * step <= end) by (nonlinear_arith)
            requires
                end as int == step * (end as int / step) + end as int % step,
                end as int % step >= 0,
                end >= 0,
                step > 0,
        ;
    }
    let behind: u128 = end / usable as u128 * usable as u128 + size;
    end < usize::MAX as u128 && behind <= usize::MAX as u128
}

/// A plan covers what it was made for: the usable part of the blocks reaches
/// from at or before `readloc` past the `readlen` samples that follow it, and
/// no block is needed to start the field that lies before the first one.
pub proof fn law_plan_covers_field(readloc: i64, readlen: usize, usable: usize)
    requires
        plan_fits(readloc, readlen, usable),
    ensures
        ({
            let plan = plan_for(readloc, readlen, usable);
            let at = read_position(readloc);
            &&& plan.startloc == plan.requested_begin * usable
            &&& plan.startloc <= at
            &&& at + readlen < plan.requested_end * usable
            &&& plan.requested_begin < plan.requested_end
            &&& plan.needed_end == (plan.requested_end - 1) * usable + BLOCKSIZE
        }),
{
    let at = read_position(readloc);
    let size = BLOCKSIZE as int;
    let step = usable as int;
    let begin = block_begin(at);
    let end = block_end(at, readlen as int);
    lemma_fundamental_div_mod(at, size);
    lemma_fundamental_div_mod(readlen as int, size);
    lemma_fundamental_div_mod(begin, step);
    lemma_fundamental_div_mod(end, step);
    lemma_div_is_ordered(begin, end, step);
    assert(begin / step >= 0 && end / step >= 0) by (nonlinear_arith)
        requires
            begin >= 0,
            end >= 0,
            step > 0,
    ;
    assert(0 <= begin / step * step <= begin) by (nonlinear_arith)
        requires
            begin == step * (begin / step) + begin % step,
            begin % step >= 0,
            begin / step >= 0,
            step > 0,
    ;
    assert(end / step <= end && end < (end / step + 1) * step) by (nonlinear_arith)
        requires
            end == step * (end / step) + end % step,
            0 <= end % step < step,
            end / step >= 0,
            step > 0,
    ;
}

/// Plans the blocks of a field of at most `readlen` samples at `readloc`.
pub fn plan_blocks(readloc: i64, readlen: usize, usable: usize) -> (plan: BlockPlan)
    requires
        plan_fits(readloc, readlen, usable),
    ensures
        plan == plan_for(readloc, readlen, usable),
{
    proof {
        law_plan_covers_field(readloc, readlen, usable);
        let at = read_position(readloc);
        lemma_fundamental_div_mod(at, BLOCKSIZE as int);
        lemma_fundamental_div_mod(block_begin(at), usable as int);
        lemma_fundamental_div_mod(block_end(at, readlen as int), usable as int);
        lemma_div_is_ordered(block_begin(at), block_end(at, readlen as int), usable as int);
    }
    let at: i64 = if readloc < 0 {
        0
    } else {
        readloc
    };
    let first: usize = at as usize / BLOCKSIZE;
    let blocks: usize = readlen / BLOCKSIZE + 2;
    let begin: usize = first * BLOCKSIZE;
    let end: usize = begin + blocks * BLOCKSIZE;
    let requested_begin: usize = begin / usable;
    let requested_end: usize = end / usable + 1;
    BlockPlan {
        readloc: at,
        requested_begin,
        requested_end,
        startloc: requested_begin * usable,
        needed_end: (requested_end - 1) * usable + BLOCKSIZE,
    }
}

/// A plan is made of whole blocks: it begins with the block in which the boundary of
/// 32768 samples at or before the position lies, and ends with the one in which the
/// boundary lies that is as many behind it as the field has whole blocks, and two more.
pub proof fn law_plan_goes_by_boundaries(
    readloc: i64,
    readlen: usize,
    usable: usize,
    first: int,
    count: int,
)
    requires
        plan_fits(readloc, readlen, usable),
        readloc >= 0 ==> first * 32768 <= readloc < (first + 1) * 32768,
        readloc < 0 ==> first == 0,
        count * 32768 <= readlen < (count + 1) * 32768,
    ensures
        ({
            let plan = plan_for(readloc, readlen, usable);
            let from = first * 32768;
            let to = (first + count + 2) * 32768;
            &&& plan.requested_begin * usable <= from < (plan.requested_begin + 1) * usable
            &&& (plan.requested_end - 1) * usable <= to < plan.requested_end * usable
            &&& plan.startloc == plan.requested_begin * usable
            &&& plan.needed_end == (plan.requested_end - 1) * usable + 32768
            &&& readloc >= 0 ==> plan.readloc == readloc
            &&& readloc < 0 ==> plan.readloc == 0
        }),
{
    law_plan_covers_field(readloc, readlen, usable);
    let at = read_position(readloc);
    let step = usable as int;
    assert(at / 32768 == first);
    assert(readlen as int / 32768 == count);
    let begin = block_begin(at);
    let end = block_end(at, readlen as int);
    lemma_fundamental_div_mod(begin, step);
    lemma_fundamental_div_mod(end, step);
    lemma_div_is_ordered(begin, end, step);
    let low = begin / step;
    let high = end / step;
    assert(low * step <= begin < (low + 1) * step && high * step <= end < (high + 1) * step
        && 0 <= low <= begin && 0 <= high <= end) by (nonlinear_arith)
        requires
            begin == step * low + begin % step,
            end == step * high + end % step,
            0 <= begin % step < step,
            0 <= end % step < step,
            0 <= begin,
            0 <= end,
            step > 0,
    ;
}

/// A plan can be addressed exactly if its boundaries and its last block can be.
pub proof fn law_plans_fit_if_they_can_be_addressed(
    readloc: i64,
    readlen: usize,
    usable: usize,
    first: int,
    count: int,
    last: int,
)
    requires
        usable > 0,
        readloc >= 0 ==> first * 32768 <= readloc < (first + 1) * 32768,
        readloc < 0 ==> first == 0,
        count * 32768 <= readlen < (count + 1) * 32768,
        last * usable <= (first + count + 2) * 32768 < (last + 1) * usable,
    ensures
        plan_fits(readloc, readlen, usable) <==> (first + count + 2) * 32768 < usize::MAX && last
            * usable + 32768 <= usize::MAX,
        !plan_fits(readloc, readlen, 0),
{
    let at = read_position(readloc);
    let step = usable as int;
    assert(at / 32768 == first);
    assert(readlen as int / 32768 == count);
    let end = block_end(at, readlen as int);
    lemma_fundamental_div_mod(end, step);
    let high = end / step;
    assert(high == last) by (nonlinear_arith)
        requires
            end == step * high + end % step,
            0 <= end % step < step,
            last * step <= end < (last + 1) * step,
            step > 0,
    ;
}

} // verus!
