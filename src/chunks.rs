//! Splitting a run's work into bounded, consecutive chunks.
use vstd::prelude::*;

verus! {

/// The bounds `[start, end)` of consecutive chunks of at most `size` items
/// that cover `0..len` in order; every chunk but the last holds exactly
/// `size` items, and none is empty.
pub fn chunk_bounds(len: usize, size: usize) -> (r: Vec<(usize, usize)>)
    requires
        size > 0,
    ensures
        len == 0 ==> r@.len() == 0,
        len > 0 ==> r@.len() > 0 && r@[0].0 == 0 && r@.last().1 == len,
        forall|k: int| 0 <= k < r@.len() - 1 ==> (#[trigger] r@[k]).1 == r@[k + 1].0,
        forall|k: int|
            0 <= k < r@.len() ==> (#[trigger] r@[k]).0 < r@[k].1 <= len && r@[k].1 - r@[k].0
                <= size,
        forall|k: int| 0 <= k < r@.len() - 1 ==> (#[trigger] r@[k]).1 - r@[k].0 == size,
{
    let mut out: Vec<(usize, usize)> = Vec::new();
    let mut start: usize = 0;
    while start < len
        invariant
            start <= len,
            size > 0,
            out@.len() == 0 ==> start == 0,
            out@.len() > 0 ==> out@[0].0 == 0 && out@.last().1 == start,
            forall|k: int| 0 <= k < out@.len() - 1 ==> (#[trigger] out@[k]).1 == out@[k + 1].0,
            forall|k: int|
                0 <= k < out@.len() ==> (#[trigger] out@[k]).0 < out@[k].1 <= start && out@[k].1
                    - out@[k].0 <= size,
            forall|k: int| 0 <= k < out@.len() ==> (#[trigger] out@[k]).1 - out@[k].0 == size
                || out@[k].1 == len,
            forall|k: int| 0 <= k < out@.len() - 1 ==> (#[trigger] out@[k]).1 - out@[k].0 == size,
        decreases len - start,
    {
        let end = if len - start > size { start + size } else { len };
        out.push((start, end));
        start = end;
    }
    out
}

} // verus!
