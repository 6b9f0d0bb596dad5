use vstd::prelude::*;

verus! {

/// The byte counter after `size` more bytes were allocated; it wraps
/// around as an atomic counter does.
pub fn grown(current: usize, size: usize) -> (r: usize)
    ensures
        r == if current + size > usize::MAX { current + size - usize::MAX - 1 } else { current + size },
{
    current.wrapping_add(size)
}

/// The byte counter after `size` bytes were freed; it wraps around as an
/// atomic counter does.
pub fn shrunk(current: usize, size: usize) -> (r: usize)
    ensures
        r == if current < size { current - size + usize::MAX + 1 } else { current - size },
{
    current.wrapping_sub(size)
}

/// The peak after the counter reached `current`: the larger of the two.
pub fn raised_peak(peak: usize, current: usize) -> (r: usize)
    ensures
        r == if current > peak { current } else { peak },
        r >= peak,
        r >= current,
{
    if current > peak {
        current
    } else {
        peak
    }
}

} // verus!
