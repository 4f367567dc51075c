//! Which delay bucket answers for a given remaining delay.
//!
//! Bucket `k` answers for the delays in `(2^(k-1), 2^k]`; bucket 0 also takes
//! the delays 0 and 1, and the last bucket takes every delay beyond its own
//! range, so that no delay is without a bucket.

use vstd::prelude::*;
use vstd::arithmetic::power2::{lemma2_to64, lemma_pow2_strictly_increases, lemma_pow2_unfold, pow2};
use vstd::std_specs::bits::u64_leading_zeros;

verus! {

/// Number of delay buckets.
pub const BUCKETS: usize = 32;

/// The first exponent `k`, counting up from `from`, with `offset <= 2^k`;
/// the last bucket where no exponent below it reaches `offset`.
pub open spec fn first_reach(offset: nat, from: nat) -> nat
    decreases 31 - from,
{
    if from >= 31 || offset <= pow2(from) {
        from
    } else {
        first_reach(offset, from + 1)
    }
}

/// The bucket that answers for a remaining delay of `offset` ticks: the
/// exponent of the smallest power of two that is at least `offset`, and the
/// last bucket for delays beyond every smaller one.
pub open spec fn bucket_index(offset: nat) -> nat {
    first_reach(offset, 0)
}

/// `bucket` is the place of `offset`: its range reaches `offset`, unless it is
/// the last one, and the range of the bucket below does not.
pub open spec fn holds_offset(bucket: nat, offset: nat) -> bool {
    &&& bucket < BUCKETS
    &&& bucket + 1 < BUCKETS ==> offset <= pow2(bucket)
    &&& bucket > 0 ==> pow2((bucket - 1) as nat) < offset
}

/// Counting up from any exponent that is not past the place of `offset` ends
/// at that place.
proof fn lemma_first_reach(offset: nat, from: nat, bucket: nat)
    requires
        holds_offset(bucket, offset),
        from <= bucket,
    ensures
        first_reach(offset, from) == bucket,
    decreases bucket - from,
{
    if from < bucket {
        if from + 1 < bucket {
            lemma_pow2_strictly_increases(from, (bucket - 1) as nat);
        }
        lemma_first_reach(offset, from + 1, bucket);
    }
}

/// Counting up from `from` ends at the place of `offset` when every exponent
/// below `from` falls short of it.
proof fn lemma_first_reach_holds(offset: nat, from: nat)
    requires
        from < BUCKETS,
        from > 0 ==> pow2((from - 1) as nat) < offset,
    ensures
        holds_offset(first_reach(offset, from), offset),
    decreases 31 - from,
{
    if !(from >= 31 || offset <= pow2(from)) {
        lemma_first_reach_holds(offset, from + 1);
    }
}

/// Every delay has exactly one bucket: the one whose range holds it.
pub proof fn lemma_bucket_index_range(offset: nat, bucket: nat)
    ensures
        bucket_index(offset) == bucket <==> holds_offset(bucket, offset),
{
    lemma_first_reach_holds(offset, 0);
    if holds_offset(bucket, offset) {
        lemma_first_reach(offset, 0, bucket);
    }
}

/// A longer delay never lies in a lower bucket, and the delays 0 and 1 share
/// bucket 0.
pub proof fn lemma_bucket_index_monotonic(shorter: nat, longer: nat)
    requires
        shorter <= longer,
    ensures
        bucket_index(shorter) <= bucket_index(longer),
        bucket_index(0) == 0,
        bucket_index(1) == 0,
{
    lemma2_to64();
    let low = bucket_index(shorter);
    let high = bucket_index(longer);
    lemma_bucket_index_range(shorter, low);
    lemma_bucket_index_range(longer, high);
    if high < low {
        if high + 1 < low {
            lemma_pow2_strictly_increases(high, (low - 1) as nat);
        }
    }
}

/// A bucket's number is below every delay filed in it: counted from any tick,
/// the bucket's next turn comes no later than the tick at which a message
/// filed in it falls due.
pub proof fn lemma_bucket_index_below_offset(offset: nat)
    requires
        offset >= 1,
    ensures
        bucket_index(offset) < offset,
{
    let bucket = bucket_index(offset);
    lemma_bucket_index_range(offset, bucket);
    if bucket > 0 {
        lemma_exponent_below_power((bucket - 1) as nat);
    }
}

/// `k < 2^k`.
proof fn lemma_exponent_below_power(exponent: nat)
    ensures
        exponent < pow2(exponent),
    decreases exponent,
{
    lemma2_to64();
    if exponent > 0 {
        lemma_exponent_below_power((exponent - 1) as nat);
        lemma_pow2_unfold(exponent);
    }
}

/// Number of binary digits of `value`.
spec fn bit_width(value: u64) -> int {
    64 - u64_leading_zeros(value)
}

/// A positive `value` of `w` binary digits lies in `[2^(w-1), 2^w)`.
proof fn lemma_bit_width(value: u64)
    requires
        value > 0,
    ensures
        1 <= bit_width(value) <= 64,
        pow2((bit_width(value) - 1) as nat) <= value < pow2(bit_width(value) as nat),
    decreases value,
{
    reveal(u64_leading_zeros);
    lemma2_to64();
    let half: u64 = value / 2;
    assert(u64_leading_zeros(value) == u64_leading_zeros(half) - 1);
    if half == 0 {
        assert(u64_leading_zeros(half) == 64);
    } else {
        lemma_bit_width(half);
        lemma_pow2_unfold(bit_width(half) as nat);
        lemma_pow2_unfold(bit_width(value) as nat);
    }
}

/// The bucket that answers for a remaining delay of `offset` ticks.
pub fn buffer_index_for_time_offset(offset: u64) -> (index: usize)
    ensures
        index == bucket_index(offset as nat),
        index < BUCKETS,
{
    proof {
        lemma2_to64();
    }
    if offset <= 1 {
        proof {
            lemma_bucket_index_range(offset as nat, 0);
        }
        0
    } else {
        let below: u64 = offset - 1;
        let zeros: u32 = below.leading_zeros();
        proof {
            lemma_bit_width(below);
        }
        let width: u32 = 64 - zeros;
        if width >= 31 {
            proof {
                if width > 31 {
                    lemma_pow2_strictly_increases(30, (width - 1) as nat);
                }
                lemma_bucket_index_range(offset as nat, 31);
            }
            31
        } else {
            proof {
                lemma_bucket_index_range(offset as nat, width as nat);
            }
            usize_of(width)
        }
    }
}

/// `small` as a `usize`.
fn usize_of(small: u32) -> (wide: usize)
    requires
        small < 32,
    ensures
        wide == small,
{
    small as usize
}

} // verus!
