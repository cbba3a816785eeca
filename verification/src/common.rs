//! Error taxonomy and the pluggable checksum function.

use vstd::prelude::*;

verus! {

/// The errors the codec reports.
///
/// `Config` is fatal and surfaced at construction (an out-of-range block
/// size).  `Format` means the framing itself is broken: bad magic, a
/// truncated header or payload, an unrecognised method, or lengths beyond
/// what the block's size class allows.  `Checksum` means the framing was
/// well formed but the recomputed digest of the decoded bytes differs from
/// the stored one.  `Backend` means the compression engine rejected a
/// payload as malformed.
#[derive(Clone, Copy, Debug, PartialEq, Eq, Structural)]
pub enum Lz4Error {
    Config,
    Format,
    Checksum,
    Backend,
}

/// The digest that `xxhash_rust::xxh32::xxh32` computes over `data` with
/// `seed`: a pure function of its two arguments.
pub uninterp spec fn xxh32_of(data: Seq<u8>, seed: u32) -> u32;

/// Relies on `xxhash_rust::xxh32::xxh32`: the 32-bit XXHash digest of
/// `data` under `seed`, a deterministic function of the bytes and the seed
/// alone.
#[verifier::external_body]
fn xxh32_digest(data: &[u8], seed: u32) -> (r: u32)
    ensures
        r == xxh32_of(data@, seed),
{
    xxhash_rust::xxh32::xxh32(data, seed)
}

/// The seed the Java reference encoder hashes with.
pub const JAVA_CHECKSUM_SEED: u32 = 0x9747b28c;

/// The Java reference encoder keeps only the low 28 bits of the digest; the
/// high 4 bits are dropped.  Reproducing that defect keeps default output
/// byte-identical to the reference streams.
pub const JAVA_CHECKSUM_MASK: u32 = 0x0FFFFFFF;

/// The pluggable checksum: a pure function from bytes to a 32-bit digest.
///
/// `JavaCompatible` is the default and reproduces the reference
/// implementation's digest, including its dropped high 4 bits.
/// `PlainXxh32` keeps all 32 bits; it exists so tests and alternate
/// compatibility targets can substitute a non-default checksum.
#[derive(Clone, Copy, Debug, PartialEq, Eq, Structural)]
pub enum Checksum {
    JavaCompatible,
    PlainXxh32,
}

impl Checksum {
    /// What `run` returns on `data`.
    pub open spec fn spec_run(self, data: Seq<u8>) -> u32 {
        match self {
            Checksum::JavaCompatible => xxh32_of(data, JAVA_CHECKSUM_SEED) & JAVA_CHECKSUM_MASK,
            Checksum::PlainXxh32 => xxh32_of(data, JAVA_CHECKSUM_SEED),
        }
    }

    /// Compute this checksum over `data`.
    pub fn run(&self, data: &[u8]) -> (r: u32)
        ensures
            r == self.spec_run(data@),
    {
        match self {
            Checksum::JavaCompatible => xxh32_digest(data, JAVA_CHECKSUM_SEED) & JAVA_CHECKSUM_MASK,
            Checksum::PlainXxh32 => xxh32_digest(data, JAVA_CHECKSUM_SEED),
        }
    }
}

} // verus!
