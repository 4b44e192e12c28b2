use vstd::prelude::*;

verus! {

/// Bytes reserved per row when pre-sizing the output of a multi-row write.
pub const BYTES_PER_ROW: usize = 256;

/// Smallest output reservation for a multi-row write.
pub const MIN_WRITE_CAPACITY: usize = 4096;

/// The reservation for `rows` rows: `rows * 256`, saturated at `usize::MAX`,
/// and never below 4096.
pub open spec fn spec_write_buffer_capacity(rows: nat) -> nat {
    let wanted = if rows * 256 <= usize::MAX { rows * 256 } else { usize::MAX as nat };
    if wanted < 4096 { 4096 } else { wanted }
}

/// Heuristic size for the buffer that receives the CSV text of `rows` rows:
/// a generous 256 bytes per row, saturating on overflow, and at least 4096.
pub fn write_buffer_capacity(rows: usize) -> (cap: usize)
    ensures
        cap == spec_write_buffer_capacity(rows as nat),
{
    let wanted: usize = match rows.checked_mul(BYTES_PER_ROW) {
        Some(n) => n,
        None => usize::MAX,
    };
    if wanted < MIN_WRITE_CAPACITY {
        MIN_WRITE_CAPACITY
    } else {
        wanted
    }
}

} // verus!
