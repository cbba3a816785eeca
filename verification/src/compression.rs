//! The pluggable compression backend: an enumerated capability over the
//! available LZ4 engines, selected once at configuration time.

use vstd::prelude::*;

use crate::common::Lz4Error;

verus! {

/// The bytes `lz4_flex::block::compress` produces for `input`: a
/// deterministic function of the input bytes alone.
pub uninterp spec fn lz4_compressed(input: Seq<u8>) -> Seq<u8>;

/// What LZ4 block decompression yields for `input` when given enough room:
/// `None` when the engine rejects the bytes as malformed, otherwise the
/// inflated bytes.  A deterministic function of the input bytes alone.
pub uninterp spec fn lz4_decompressed(input: Seq<u8>) -> Option<Seq<u8>>;

/// Decompression inverts compression on `input`.
pub open spec fn lz4_round_trips(input: Seq<u8>) -> bool {
    lz4_decompressed(lz4_compressed(input)) == Some(input)
}

/// Relies on `lz4_flex::block::compress`: it compresses all of `input`
/// into a fresh vector, deterministically, and
/// `lz4_flex::block::decompress` inverts it, as the crate documents and
/// its block round-trip tests show.
#[verifier::external_body]
fn lz4_flex_compress(input: &[u8]) -> (r: Vec<u8>)
    ensures
        r@ == lz4_compressed(input@),
        lz4_decompressed(r@) == Some(input@),
{
    lz4_flex::block::compress(input)
}

/// Relies on `lz4_flex::block::decompress`: with the crate's default
/// `safe-decode` feature it returns `Ok` exactly when the input is a well
/// formed LZ4 block whose inflated size fits in `min_size`, and an error
/// (never a panic) otherwise.
#[verifier::external_body]
fn lz4_flex_decompress(input: &[u8], min_size: usize) -> (r: Option<Vec<u8>>)
    requires
        min_size <= 33_554_432,
    ensures
        (r is Some) <==> (lz4_decompressed(input@) matches Some(x) && x.len() <= min_size),
        r matches Some(v) ==> lz4_decompressed(input@) == Some(v@),
{
    lz4_flex::block::decompress(input, min_size).ok()
}

/// Relies on `lz4_flex::block::get_maximum_output_size`: its body returns
/// `16 + 4 + input_len * 110 / 100`.
#[verifier::external_body]
fn lz4_flex_max_output(input_len: usize) -> (r: usize)
    requires
        input_len <= 33_554_432,
    ensures
        r == 20 + (input_len * 110) / 100,
{
    lz4_flex::block::get_maximum_output_size(input_len)
}

/// The compression engines this build can dispatch to.  Resolved once at
/// configuration time; no backend choice sits on the hot path.
#[derive(Clone, Copy, Debug, PartialEq, Eq, Structural)]
pub enum Context {
    Lz4Flex,
}

impl core::default::Default for Context {
    fn default() -> (r: Self)
        ensures
            r == Context::Lz4Flex,
    {
        Context::Lz4Flex
    }
}

impl Context {
    /// An upper bound on the compressed size of any input of
    /// `decompressed_len` bytes; used to pre-size staging buffers.
    pub fn get_maximum_compressed_buffer_len(&self, decompressed_len: usize) -> (r: usize)
        requires
            decompressed_len <= 33_554_432,
        ensures
            r == 20 + (decompressed_len * 110) / 100,
    {
        match self {
            Context::Lz4Flex => lz4_flex_max_output(decompressed_len),
        }
    }

    /// Compress all of `input` into a fresh vector.
    pub fn compress(&self, input: &[u8]) -> (r: Vec<u8>)
        ensures
            r@ == lz4_compressed(input@),
            lz4_round_trips(input@),
    {
        match self {
            Context::Lz4Flex => lz4_flex_compress(input),
        }
    }

    /// Inflate `input`, which must fit in `min_size` bytes; a malformed or
    /// oversized payload is a backend error.
    pub fn decompress(&self, input: &[u8], min_size: usize) -> (r: Result<Vec<u8>, Lz4Error>)
        requires
            min_size <= 33_554_432,
        ensures
            (r is Ok) <==> (lz4_decompressed(input@) matches Some(x) && x.len() <= min_size),
            r matches Ok(v) ==> lz4_decompressed(input@) == Some(v@),
            r is Err ==> r == Err::<Vec<u8>, Lz4Error>(Lz4Error::Backend),
    {
        match self {
            Context::Lz4Flex => match lz4_flex_decompress(input, min_size) {
                Some(v) => Ok(v),
                None => Err(Lz4Error::Backend),
            },
        }
    }
}

} // verus!
