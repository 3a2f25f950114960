//! Hasher builders for integer-keyed hash maps.
use vstd::prelude::*;

verus! {

/// Builds hashers that take an integer key as its own hash.
pub struct CPPTrivialHasherBuilder {}

impl CPPTrivialHasherBuilder {
    pub fn new() -> (r: CPPTrivialHasherBuilder) {
        CPPTrivialHasherBuilder {  }
    }
}

impl std::hash::BuildHasher for CPPTrivialHasherBuilder {
    type Hasher = CPPTrivialHasher;

    fn build_hasher(&self) -> (r: CPPTrivialHasher) {
        CPPTrivialHasher { state: 0 }
    }
}

/// A hasher whose state is the last integer written to it.
pub struct CPPTrivialHasher {
    pub state: u64,
}

impl std::hash::Hasher for CPPTrivialHasher {
    fn finish(&self) -> (r: u64) {
        self.state
    }

    /// Keys of other types fold their bytes into the state, the last eight
    /// bytes kept.
    fn write(&mut self, bytes: &[u8]) {
        let mut i: usize = 0;
        while i < bytes.len()
            decreases bytes.len() - i,
        {
            self.state = (self.state % 0x100_0000_0000_0000) * 256 + bytes[i] as u64;
            i = i + 1;
        }
    }

    fn write_i64(&mut self, i: i64) {
        self.state = i as u64;
    }

    fn write_u32(&mut self, i: u32) {
        self.state = i as u64;
    }
}

/// Builds the `FxHasher` of rustc-hash.
pub struct FxHasherBuilder {}

impl FxHasherBuilder {
    pub fn new() -> (r: FxHasherBuilder) {
        FxHasherBuilder {  }
    }
}

#[verifier::external_type_specification]
#[verifier::external_body]
pub struct ExFxHasher(rustc_hash::FxHasher);

/// Relies on `FxHasher::default`: a hasher with an empty state.
#[verifier::external_body]
fn fx_hasher_default() -> (r: rustc_hash::FxHasher) {
    rustc_hash::FxHasher::default()
}

impl std::hash::BuildHasher for FxHasherBuilder {
    type Hasher = rustc_hash::FxHasher;

    fn build_hasher(&self) -> (r: rustc_hash::FxHasher) {
        fx_hasher_default()
    }
}

} // verus!
