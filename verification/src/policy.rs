//! When the table grows, and how far.

use vstd::prelude::*;

verus! {

/// The number of entries from which a table starts to use buckets, unless
/// it was made with another.
pub const GROWTH_THRESHOLD: usize = 10;

/// The number of bytes that the bucket array may take, unless the table was
/// made with another budget.
pub const BUCKET_BYTE_BUDGET: usize = 1024;

/// The number of bytes that one bucket record is counted as: an entry count
/// and the head of a run.
pub const BUCKET_RECORD_BYTES: usize = 16;

/// A size that the table would need does not fit in a machine word.
#[derive(Debug, Clone, Copy, PartialEq, Eq, Structural)]
pub struct CapacityOverflowError {}

/// The number of bucket records that fit in a budget of bytes.
pub open spec fn spec_bucket_limit(byte_budget: int) -> int {
    byte_budget / (BUCKET_RECORD_BYTES as int)
}

/// The number of bucket records that fit in a budget of bytes.
pub fn bucket_limit(byte_budget: usize) -> (limit: usize)
    ensures
        limit == spec_bucket_limit(byte_budget as int),
{
    byte_budget / BUCKET_RECORD_BYTES
}

/// A requested number of buckets, cut down to the limit.
pub open spec fn spec_clamp(requested: int, max_buckets: int) -> int {
    if requested > max_buckets {
        max_buckets
    } else {
        requested
    }
}

/// Cuts a requested number of buckets down to the limit.
pub fn clamp_buckets(requested: usize, max_buckets: usize) -> (size: usize)
    ensures
        size == spec_clamp(requested as int, max_buckets as int),
{
    if requested > max_buckets {
        max_buckets
    } else {
        requested
    }
}

/// Whether a table with `count` entries and `buckets` buckets is due to
/// grow: it has reached the threshold and holds more than two entries for
/// each bucket.
pub open spec fn growth_due(count: int, buckets: int, threshold: int) -> bool {
    count >= threshold && count > 2 * buckets
}

/// The number of buckets that a table due to grow asks for: twice its
/// entry count, cut down to the limit. `None` when the table is not due, or
/// when the cut leaves no more buckets than it has.
pub open spec fn growth_target(count: int, buckets: int, threshold: int, max_buckets: int) -> Option<
    int,
> {
    if growth_due(count, buckets, threshold) && spec_clamp(2 * count, max_buckets) > buckets {
        Some(spec_clamp(2 * count, max_buckets))
    } else {
        None
    }
}

/// Whether working out the growth of a table with `count` entries leaves
/// the machine word: the table is due to grow and twice its entry count
/// does not fit.
pub open spec fn growth_overflows(count: int, buckets: int, threshold: int) -> bool {
    growth_due(count, buckets, threshold) && 2 * count > usize::MAX
}

/// Decides the growth of a table with `count` entries and `buckets`
/// buckets.
pub fn growth_request(count: usize, buckets: usize, threshold: usize, max_buckets: usize) -> (r:
    Result<Option<usize>, CapacityOverflowError>)
    ensures
        r is Err <==> growth_overflows(count as int, buckets as int, threshold as int),
        r matches Ok(t) ==> match t {
            Some(size) => growth_target(
                count as int,
                buckets as int,
                threshold as int,
                max_buckets as int,
            ) == Some(size as int),
            None => growth_target(
                count as int,
                buckets as int,
                threshold as int,
                max_buckets as int,
            ) is None,
        },
{
    if count < threshold || count == 0 || (count - 1) / 2 < buckets {
        return Ok(None);
    }
    let doubled = match count.checked_mul(2) {
        Some(d) => d,
        None => {
            return Err(CapacityOverflowError {});
        },
    };
    let size = clamp_buckets(doubled, max_buckets);
    if size > buckets {
        Ok(Some(size))
    } else {
        Ok(None)
    }
}

} // verus!
