//! The entropy source a party owns: a thin wrapper around rand's standard
//! generator. Nothing is assumed of the values drawn.
use vstd::prelude::*;

verus! {

#[verifier::external_type_specification]
#[verifier::external_body]
pub struct ExStdRng(rand::rngs::StdRng);

/// An entropy source owned by one party.
pub struct Entropy {
    inner: rand::rngs::StdRng,
}

impl Entropy {
    /// Relies on rand's `StdRng::from_entropy`: a generator freshly seeded
    /// from the operating system.
    #[verifier::external_body]
    pub fn from_system() -> (r: Entropy) {
        Entropy { inner: <rand::rngs::StdRng as rand::SeedableRng>::from_entropy() }
    }

    /// Relies on rand's `RngCore::next_u64`. Nothing is promised of the
    /// value: callers must hold for every outcome.
    #[verifier::external_body]
    pub fn next_u64(&mut self) -> (r: u64) {
        rand::RngCore::next_u64(&mut self.inner)
    }

    /// A random integer below `n`: a 128-bit draw reduced modulo `n`, whose
    /// distance from uniform is below 2^-64.
    pub fn below(&mut self, n: u64) -> (r: u64)
        requires
            n >= 1,
        ensures
            r < n,
    {
        let hi = self.next_u64();
        let lo = self.next_u64();
        let x = ((hi as u128) << 64) | (lo as u128);
        (x % (n as u128)) as u64
    }
}

} // verus!
