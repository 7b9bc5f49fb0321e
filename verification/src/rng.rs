use vstd::prelude::*;

verus! {

/// Relies on rand::random_range: a draw from the thread-local
/// generator, uniform over `0..n`. The range is non-empty by the
/// precondition, so the call cannot panic, and every value it
/// returns lies below `n`. Nothing more is assumed: the draw is
/// random and two calls may differ.
#[verifier::external_body]
pub(crate) fn rand_below(n: usize) -> (r: usize)
    requires
        1 <= n,
    ensures
        r < n,
{
    rand::random_range(0..n)
}

} // verus!
