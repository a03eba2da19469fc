use vstd::prelude::*;

verus! {

#[verifier::external_type_specification]
#[verifier::external_body]
pub struct ExThreadRng(rand::rngs::ThreadRng);

/// Relies on rand::rng: a handle on the thread-local generator.
#[verifier::external_body]
fn thread_generator() -> (r: rand::rngs::ThreadRng) {
    rand::rng()
}

/// Relies on rand::Rng::random_range over `lo..=hi`: a value inside the
/// inclusive range, which must not be empty (it panics on an empty one).
#[verifier::external_body]
fn uniform_between(g: &mut rand::rngs::ThreadRng, lo: usize, hi: usize) -> (r: usize)
    requires
        lo <= hi,
    ensures
        lo <= r <= hi,
{
    rand::Rng::random_range(g, lo..=hi)
}

/// The random source that every generator, mutator and search loop draws from.
pub struct RandomSource {
    inner: rand::rngs::ThreadRng,
}

impl RandomSource {
    pub fn new() -> (r: RandomSource) {
        RandomSource { inner: thread_generator() }
    }

    /// A number drawn uniformly from `lo..=hi`.
    pub fn usize_between(&mut self, lo: usize, hi: usize) -> (r: usize)
        requires
            lo <= hi,
        ensures
            lo <= r <= hi,
    {
        uniform_between(&mut self.inner, lo, hi)
    }
}

} // verus!
