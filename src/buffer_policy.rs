use vstd::prelude::*;

verus! {

/// Above this capacity the standard policy stops doubling and grows by this step.
pub const DOUBLING_LIMIT: usize = 8388608;

/// Decides how far the read buffer may grow when one record does not fit.
pub trait BufferPolicy {
    /// What the policy, as it stands, answers for a buffer of `current_size`
    /// bytes.
    spec fn grows_to(&self, current_size: usize) -> Option<usize>;

    /// The capacity that the buffer of `current_size` bytes may grow to, or
    /// `None` where the size limit is reached. A buffer is never empty of
    /// capacity.
    fn grow_to(&mut self, current_size: usize) -> (r: Option<usize>)
        requires
            current_size > 0,
        ensures
            r == old(self).grows_to(current_size),
            r matches Some(n) ==> n > current_size,
    ;
}

/// Capacity that the standard policy proposes for a buffer of `current` bytes.
pub open spec fn standard_growth(current: usize) -> Option<usize> {
    if current < DOUBLING_LIMIT {
        Some((2 * current) as usize)
    } else if current + DOUBLING_LIMIT <= usize::MAX {
        Some((current + DOUBLING_LIMIT) as usize)
    } else {
        None
    }
}

/// Doubles the capacity up to 8 MiB, then grows it by 8 MiB at a time.
#[derive(Clone, Copy, Debug, Default)]
pub struct StandardPolicy;

impl BufferPolicy for StandardPolicy {
    open spec fn grows_to(&self, current_size: usize) -> Option<usize> {
        standard_growth(current_size)
    }

    fn grow_to(&mut self, current_size: usize) -> (r: Option<usize>)
        ensures
            r == standard_growth(current_size),
    {
        if current_size < DOUBLING_LIMIT {
            Some(current_size * 2)
        } else {
            current_size.checked_add(DOUBLING_LIMIT)
        }
    }
}

} // verus!
