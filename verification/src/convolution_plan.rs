//! Layout of partitioned convolution: how an impulse response (IR) is cut
//! into partitions, and into the geometrically growing tiers of the
//! non-uniform convolver.

use vstd::prelude::*;
use crate::pow2::{is_pow2, lemma_pow2_double, lemma_pow2_divides, lemma_pow2_below_half};

verus! {

/// `ceil(len / block_size)`: the partitions of `block_size` samples that an
/// IR of `len` samples is cut into, the last one zero-padded.
pub open spec fn spec_partition_count(len: int, block_size: int) -> int {
    (len + block_size - 1) / block_size
}

/// Number of `block_size`-sample partitions of an IR of `len` samples.
pub fn partition_count(len: usize, block_size: usize) -> (r: usize)
    requires
        block_size > 0,
    ensures
        r == spec_partition_count(len as int, block_size as int),
        r * block_size >= len,
        r == 0 || (r - 1) * block_size < len,
{
    let q = len / block_size;
    let m = len % block_size;
    proof {
        vstd::arithmetic::div_mod::lemma_fundamental_div_mod(len as int, block_size as int);
        if m != 0 {
            vstd::arithmetic::div_mod::lemma_div_is_strictly_smaller(len as int, block_size as int);
            assert((q + 1) * block_size + (m - 1) == len + block_size - 1) by (nonlinear_arith)
                requires
                    len == block_size * q + m,
            ;
            vstd::arithmetic::div_mod::lemma_fundamental_div_mod_converse_div(
                (len + block_size - 1) as int,
                block_size as int,
                q + 1,
                m - 1,
            );
        } else {
            assert(q * block_size + (block_size - 1) == len + block_size - 1) by (nonlinear_arith)
                requires
                    len == block_size * q + m,
                    m == 0,
            ;
            vstd::arithmetic::div_mod::lemma_fundamental_div_mod_converse_div(
                (len + block_size - 1) as int,
                block_size as int,
                q as int,
                block_size - 1,
            );
        }
    }
    let r = if m == 0 {
        q
    } else {
        q + 1
    };
    assert(r * block_size >= len && (r == 0 || (r - 1) * block_size < len)) by (nonlinear_arith)
        requires
            len == block_size * q + m,
            0 <= m < block_size,
            m == 0 ==> r == q,
            m != 0 ==> r == q + 1,
    ;
    r
}

/// One tier of a non-uniform convolver: the IR segment `[offset, offset + len)`
/// convolved at `block_size`, which is `ratio` base blocks.
#[derive(Clone, Copy, Debug, PartialEq, Eq)]
pub struct TierSegment {
    pub offset: usize,
    pub len: usize,
    pub block_size: usize,
    pub ratio: usize,
}

/// The tiers for the IR from `offset` on, the next tier at block size
/// `block`: while the block is below `max`, a tier covers one block of the
/// IR and the block doubles; the tier at `max` takes all the rest.
pub open spec fn tier_plan(ir_len: int, offset: int, block: int, base: int, max: int) -> Seq<TierSegment>
    decreases ir_len - offset,
{
    if offset >= ir_len || block <= 0 {
        Seq::empty()
    } else if block < max {
        let end = if offset + block < ir_len {
            offset + block
        } else {
            ir_len
        };
        seq![
            TierSegment {
                offset: offset as usize,
                len: (end - offset) as usize,
                block_size: block as usize,
                ratio: (block / base) as usize,
            },
        ] + tier_plan(ir_len, end, 2 * block, base, max)
    } else {
        seq![
            TierSegment {
                offset: offset as usize,
                len: (ir_len - offset) as usize,
                block_size: max as usize,
                ratio: (max / base) as usize,
            },
        ]
    }
}

/// The tiers of a non-uniform convolver for an IR of `ir_len` samples:
/// tier 0 at `base_block_size`, each next tier doubling, up to
/// `max_tier_block_size`, which takes the remainder of the IR.
pub fn plan_tiers(ir_len: usize, base_block_size: usize, max_tier_block_size: usize) -> (r: Vec<
    TierSegment,
>)
    requires
        base_block_size >= 2,
        is_pow2(base_block_size as int),
        max_tier_block_size >= base_block_size,
        is_pow2(max_tier_block_size as int),
        ir_len > 0,
    ensures
        r@ == tier_plan(
            ir_len as int,
            0,
            base_block_size as int,
            base_block_size as int,
            max_tier_block_size as int,
        ),
{
    let mut tiers: Vec<TierSegment> = Vec::new();
    let mut ir_offset: usize = 0;
    let mut tier_block: usize = base_block_size;
    let ghost whole = tier_plan(
        ir_len as int,
        0,
        base_block_size as int,
        base_block_size as int,
        max_tier_block_size as int,
    );
    while ir_offset < ir_len
        invariant
            ir_offset <= ir_len,
            base_block_size <= tier_block <= max_tier_block_size,
            is_pow2(tier_block as int),
            is_pow2(max_tier_block_size as int),
            base_block_size >= 2,
            whole == tiers@ + tier_plan(
                ir_len as int,
                ir_offset as int,
                tier_block as int,
                base_block_size as int,
                max_tier_block_size as int,
            ),
        decreases ir_len - ir_offset,
    {
        if tier_block < max_tier_block_size {
            let end = if tier_block < ir_len - ir_offset {
                ir_offset + tier_block
            } else {
                ir_len
            };
            let seg = TierSegment {
                offset: ir_offset,
                len: end - ir_offset,
                block_size: tier_block,
                ratio: tier_block / base_block_size,
            };
            let ghost rest = tier_plan(
                ir_len as int,
                end as int,
                2 * tier_block,
                base_block_size as int,
                max_tier_block_size as int,
            );
            assert(tier_plan(
                ir_len as int,
                ir_offset as int,
                tier_block as int,
                base_block_size as int,
                max_tier_block_size as int,
            ) == seq![seg] + rest);
            assert(tiers@.push(seg) + rest =~= tiers@ + (seq![seg] + rest));
            tiers.push(seg);
            ir_offset = end;
            proof {
                lemma_pow2_double(tier_block as int);
                crate::pow2::lemma_pow2_below_half(max_tier_block_size as int, tier_block as int);
            }
            tier_block = tier_block * 2;
        } else {
            let seg = TierSegment {
                offset: ir_offset,
                len: ir_len - ir_offset,
                block_size: max_tier_block_size,
                ratio: max_tier_block_size / base_block_size,
            };
            assert(tiers@.push(seg) =~= tiers@ + seq![seg]);
            tiers.push(seg);
            ir_offset = ir_len;
        }
    }
    assert(tiers@ + Seq::<TierSegment>::empty() =~= tiers@);
    tiers
}


/// The tiers cut `[offset, ir_len)` into consecutive non-empty segments, in order.
pub open spec fn tiers_cover(plan: Seq<TierSegment>, offset: int, ir_len: int) -> bool {
    &&& plan.len() > 0
    &&& plan[0].offset == offset
    &&& forall|k: int|
        0 <= k < plan.len() - 1 ==> #[trigger] plan[k].offset + plan[k].len == plan[k + 1].offset
    &&& plan.last().offset + plan.last().len == ir_len
    &&& forall|k: int| 0 <= k < plan.len() ==> #[trigger] plan[k].len > 0
}

/// Tier block sizes start at `block` and double from tier to tier, never
/// above `max`; each is `ratio` base blocks; every tier but the last holds
/// exactly one block of the IR.
pub open spec fn tiers_grow(plan: Seq<TierSegment>, block: int, base: int, max: int) -> bool {
    &&& plan.len() > 0 ==> plan[0].block_size == block
    &&& forall|k: int|
        0 <= k < plan.len() - 1 ==> #[trigger] plan[k + 1].block_size == 2 * plan[k].block_size
    &&& forall|k: int|
        0 <= k < plan.len() ==> #[trigger] plan[k].block_size <= max && plan[k].ratio * base
            == plan[k].block_size
    &&& forall|k: int| 0 <= k < plan.len() - 1 ==> #[trigger] plan[k].len == plan[k].block_size
}

/// The tiers of a non-uniform convolver cut the IR into consecutive
/// segments, from its first sample to its last, at block sizes that double
/// from the base block size up to the largest tier size; all tiers but the
/// last hold one block each, the last holds the rest of the IR.
pub proof fn lemma_tier_plan_shape(ir_len: int, offset: int, block: int, base: int, max: int)
    requires
        0 <= offset < ir_len <= usize::MAX,
        is_pow2(base),
        is_pow2(block),
        is_pow2(max),
        base <= block <= max <= usize::MAX,
    ensures
        tiers_cover(tier_plan(ir_len, offset, block, base, max), offset, ir_len),
        tiers_grow(tier_plan(ir_len, offset, block, base, max), block, base, max),
    decreases ir_len - offset,
{
    let plan = tier_plan(ir_len, offset, block, base, max);
    lemma_pow2_divides(block, base);
    if block < max {
        let end = if offset + block < ir_len {
            offset + block
        } else {
            ir_len
        };
        if end < ir_len {
            lemma_pow2_double(block);
            lemma_pow2_below_half(max, block);
            lemma_tier_plan_shape(ir_len, end, 2 * block, base, max);
            let rest = tier_plan(ir_len, end, 2 * block, base, max);
            assert(plan == seq![plan[0]] + rest);
            assert forall|k: int| 0 <= k < plan.len() - 1 implies #[trigger] plan[k].offset
                + plan[k].len == plan[k + 1].offset by {
                if k > 0 {
                    assert(plan[k] == rest[k - 1]);
                    assert(plan[k + 1] == rest[k]);
                }
            }
            assert forall|k: int| 0 <= k < plan.len() - 1 implies #[trigger] plan[k + 1].block_size
                == 2 * plan[k].block_size by {
                if k > 0 {
                    assert(plan[k] == rest[k - 1]);
                    assert(plan[k + 1] == rest[k]);
                }
            }
            assert forall|k: int| 0 <= k < plan.len() implies #[trigger] plan[k].block_size <= max
                && plan[k].ratio * base == plan[k].block_size && plan[k].len > 0 by {
                if k > 0 {
                    assert(plan[k] == rest[k - 1]);
                }
            }
            assert forall|k: int| 0 <= k < plan.len() - 1 implies #[trigger] plan[k].len
                == plan[k].block_size by {
                if k > 0 {
                    assert(plan[k] == rest[k - 1]);
                }
            }
        } else {
            assert(tier_plan(ir_len, end, 2 * block, base, max) =~= Seq::<TierSegment>::empty());
            assert(plan.len() == 1);
        }
    } else {
        assert(plan.len() == 1);
    }
}

} // verus!
