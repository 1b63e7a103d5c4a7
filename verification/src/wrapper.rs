//! The codec as a named wrapper with its key.

use crate::direction::{CtcpRx, CtcpTx, Direction};
use crate::prefix::check_fits;
use rand::rngs::SmallRng;
use vstd::prelude::*;

verus! {

/// The key that both peers use when none is configured.
pub const DEFAULT_KEY: u32 = 154_543_927;

/// Under the default key no first frame fails on its check digits.
pub proof fn lemma_default_key_fits()
    ensures
        check_fits(DEFAULT_KEY),
{
}

/// The printable wrapper: it holds the key under which both directions of a
/// connection are encoded.
#[derive(Debug, Clone, Copy)]
pub struct CtcpWrapper {
    key: u32,
}

impl View for CtcpWrapper {
    type V = u32;

    closed spec fn view(&self) -> u32 {
        self.key
    }
}

impl Default for CtcpWrapper {
    fn default() -> (w: Self)
        ensures
            w@ == DEFAULT_KEY,
    {
        Self::new()
    }
}

impl CtcpWrapper {
    /// A wrapper with the default key.
    pub fn new() -> (w: Self)
        ensures
            w@ == DEFAULT_KEY,
    {
        Self::with_key(DEFAULT_KEY)
    }

    /// A wrapper with a key of one's own.
    pub fn with_key(key: u32) -> (w: Self)
        ensures
            w@ == key,
    {
        Self { key }
    }

    /// The key of this wrapper.
    pub fn key(&self) -> (k: u32)
        ensures
            k == self@,
    {
        self.key
    }

    /// The name under which the wrapper is listed.
    pub fn name(&self) -> (n: &'static str)
        ensures
            n@ == "ctcp"@,
    {
        "ctcp"
    }

    /// The two halves for one connection under this wrapper's key, both
    /// expecting long prefixes first. The sending half draws from `rng`.
    pub fn halves(&self, rng: SmallRng) -> (pair: (CtcpTx, CtcpRx))
        ensures
            pair.0@ == (Direction { key: self@, short_only: false }),
            pair.1@ == (Direction { key: self@, short_only: false }),
    {
        (CtcpTx::new(self.key, rng), CtcpRx::new(self.key))
    }
}

} // verus!
