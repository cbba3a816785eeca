//! The streaming block decoder, mirror of the encoder: it parses block
//! framing, sizes its buffers from each header's size class, inflates or
//! copies the payload, and verifies the checksum before yielding any
//! bytes.

use vstd::prelude::*;

use crate::common::Checksum;
use crate::common::Lz4Error;
use crate::compression::lz4_decompressed;
use crate::compression::Context;
use crate::lz4_block_header::CompressionLevel;
use crate::lz4_block_header::CompressionMethod;
use crate::lz4_block_header::Lz4BlockHeader;
use crate::lz4_block_header::MAX_BLOCK_SIZE;
use crate::lz4_block_header::MIN_BLOCK_SIZE;
use crate::lz4_block_output::chunk_ok;
use crate::lz4_block_output::concat_of;
use crate::lz4_block_output::encode_stream;
use crate::lz4_block_output::frame_of;
use crate::lz4_block_output::lemma_split_full_concat;
use crate::lz4_block_output::method_of;
use crate::lz4_block_output::payload_of;
use crate::lz4_block_output::Lz4BlockOutputBase;
use vstd::arithmetic::power2::lemma2_to64;
use vstd::arithmetic::power2::lemma_pow2_strictly_increases;
use vstd::slice::slice_subrange;
use vstd::slice::slice_to_vec;

verus! {

/// The bytes a block's payload stands for: the payload itself for a raw
/// block, its inflation for a compressed one.  An inflation the backend
/// rejects, or whose length is not the declared original length, is a
/// backend error.
pub open spec fn spec_block_bytes(h: Lz4BlockHeader, payload: Seq<u8>) -> Result<Seq<u8>, Lz4Error> {
    match h.compression_method {
        CompressionMethod::Raw => Ok(payload),
        CompressionMethod::Lz4 => match lz4_decompressed(payload) {
            None => Err(Lz4Error::Backend),
            Some(x) => if x.len() == h.decompressed_len {
                Ok(x)
            } else {
                Err(Lz4Error::Backend)
            },
        },
    }
}

/// The validity checks a decoder makes on a parsed header before trusting
/// its lengths: the declared original length must fit the size class's
/// bound, a raw payload is exactly as long as the original, and a
/// compressed payload never longer.
pub open spec fn spec_header_ok(h: Lz4BlockHeader) -> bool {
    &&& h.decompressed_len <= h.compression_level.spec_max_decompressed_len()
    &&& (h.compression_method is Raw ==> h.compressed_len == h.decompressed_len)
    &&& (h.compression_method is Lz4 ==> h.compressed_len <= h.decompressed_len)
}

/// One decoding step on the remaining bytes `rem`: end of stream at a
/// block boundary, or the next block's original bytes together with how
/// many input bytes the block occupied, or the error that stops the
/// stream.
pub open spec fn spec_step(rem: Seq<u8>, ck: Checksum) -> Result<
    Option<(Seq<u8>, int)>,
    Lz4Error,
> {
    if rem.len() == 0 {
        Ok(None)
    } else if rem.len() < 21 {
        Err(Lz4Error::Format)
    } else {
        match Lz4BlockHeader::spec_parse(rem.take(21)) {
            None => Err(Lz4Error::Format),
            Some(h) => if !spec_header_ok(h) {
                Err(Lz4Error::Format)
            } else if rem.len() - 21 < h.compressed_len {
                Err(Lz4Error::Format)
            } else {
                match spec_block_bytes(h, rem.subrange(21, 21 + h.compressed_len as int)) {
                    Err(e) => Err(e),
                    Ok(chunk) => if ck.spec_run(chunk) != h.checksum {
                        Err(Lz4Error::Checksum)
                    } else {
                        Ok(Some((chunk, 21 + h.compressed_len as int)))
                    },
                }
            },
        }
    }
}

/// What listing mode yields for the next block of `rem`: its header and
/// how many input bytes the block occupies.  The payload is not decoded
/// and its checksum is not verified; the header's declared lengths are
/// still held to the size class's bound.
pub open spec fn spec_meta_step(rem: Seq<u8>) -> Result<Option<(Lz4BlockHeader, int)>, Lz4Error> {
    if rem.len() == 0 {
        Ok(None)
    } else if rem.len() < 21 {
        Err(Lz4Error::Format)
    } else {
        match Lz4BlockHeader::spec_parse(rem.take(21)) {
            None => Err(Lz4Error::Format),
            Some(h) => if !spec_header_ok(h) {
                Err(Lz4Error::Format)
            } else if rem.len() - 21 < h.compressed_len {
                Err(Lz4Error::Format)
            } else {
                Ok(Some((h, 21 + h.compressed_len as int)))
            },
        }
    }
}

/// What decoding all of `data` yields: the original bytes of every block
/// in order, or the first error.
pub open spec fn spec_decode(data: Seq<u8>, ck: Checksum) -> Result<Seq<u8>, Lz4Error>
    decreases data.len(),
{
    match spec_step(data, ck) {
        Err(e) => Err(e),
        Ok(None) => Ok(Seq::empty()),
        Ok(Some((chunk, n))) => if 21 <= n <= data.len() {
            match spec_decode(data.skip(n), ck) {
                Err(e) => Err(e),
                Ok(rest) => Ok(chunk + rest),
            }
        } else {
            Err(Lz4Error::Format)
        },
    }
}

/// The streaming block decoder.
pub struct Lz4BlockInput {
    data: Vec<u8>,
    pos: usize,
    compression: Context,
    checksum: Checksum,
}

impl Lz4BlockInput {
    /// The whole source the decoder was built over.
    pub closed spec fn source(&self) -> Seq<u8> {
        self.data@
    }

    /// How far into the source the decoder has read.
    pub closed spec fn spec_pos(&self) -> int {
        self.pos as int
    }

    pub closed spec fn spec_checksum(&self) -> Checksum {
        self.checksum
    }

    pub closed spec fn spec_compression(&self) -> Context {
        self.compression
    }

    /// The bytes not yet consumed.
    pub open spec fn remaining(&self) -> Seq<u8> {
        self.source().skip(self.spec_pos())
    }

    pub open spec fn wf(&self) -> bool {
        0 <= self.spec_pos() <= self.source().len()
    }

    /// The decoder's configuration and source never change after
    /// construction.
    pub open spec fn same_source(a: Self, b: Self) -> bool {
        &&& a.source() == b.source()
        &&& a.spec_checksum() == b.spec_checksum()
        &&& a.spec_compression() == b.spec_compression()
    }

    /// Build a decoder over `data` with the default backend and the
    /// Java-compatible checksum.
    pub fn new(data: Vec<u8>) -> (r: Self)
        ensures
            r.wf(),
            r.source() == data@,
            r.spec_pos() == 0,
            r.spec_checksum() == Checksum::JavaCompatible,
            r.spec_compression() == Context::Lz4Flex,
    {
        Self::with_checksum(data, Context::default(), Checksum::JavaCompatible)
    }

    /// Build a decoder over `data` with a chosen backend and checksum.
    pub fn with_checksum(data: Vec<u8>, compression: Context, checksum: Checksum) -> (r: Self)
        ensures
            r.wf(),
            r.source() == data@,
            r.spec_pos() == 0,
            r.spec_checksum() == checksum,
            r.spec_compression() == compression,
    {
        Lz4BlockInput { data, pos: 0, compression, checksum }
    }

    /// Read the next block: parse its header, check the declared lengths
    /// against the size class before trusting them, materialise the
    /// original bytes and verify their checksum.  `Ok(None)` is a clean
    /// end of stream at a block boundary.
    pub fn read_block(&mut self) -> (r: Result<Option<Vec<u8>>, Lz4Error>)
        requires
            old(self).wf(),
        ensures
            final(self).wf(),
            Self::same_source(*old(self), *final(self)),
            spec_step(old(self).remaining(), old(self).spec_checksum()) matches Ok(Some((chunk, n)))
                ==> r matches Ok(Some(v)) && v@ == chunk && final(self).spec_pos() == old(
                self,
            ).spec_pos() + n,
            spec_step(old(self).remaining(), old(self).spec_checksum()) == Ok::<
                Option<(Seq<u8>, int)>,
                Lz4Error,
            >(None) ==> r == Ok::<Option<Vec<u8>>, Lz4Error>(None) && final(self).spec_pos() == old(
                self,
            ).spec_pos(),
            spec_step(old(self).remaining(), old(self).spec_checksum()) matches Err(e) ==> r
                == Err::<Option<Vec<u8>>, Lz4Error>(e) && final(self).spec_pos() == old(
                self,
            ).spec_pos(),
    {
        let ghost rem = self.remaining();
        let rem_len = self.data.len() - self.pos;
        if rem_len == 0 {
            return Ok(None);
        }
        if rem_len < 21 {
            return Err(Lz4Error::Format);
        }
        let tail = slice_subrange(self.data.as_slice(), self.pos, self.data.len());
        assert(tail@ =~= rem);
        let h = match Lz4BlockHeader::read(tail) {
            Ok(h) => h,
            Err(e) => {
                return Err(e);
            },
        };
        let max_len = h.compression_level.get_max_decompressed_buffer_len();
        proof {
            lemma2_to64();
            if h.compression_level.level < 15 {
                lemma_pow2_strictly_increases(
                    (h.compression_level.level + 10) as nat,
                    25,
                );
            }
            assert(max_len <= 33_554_432);
        }
        let dlen = h.decompressed_len as usize;
        let clen = h.compressed_len as usize;
        if dlen > max_len {
            return Err(Lz4Error::Format);
        }
        match h.compression_method {
            CompressionMethod::Raw => if clen != dlen {
                return Err(Lz4Error::Format);
            },
            CompressionMethod::Lz4 => if clen > dlen {
                return Err(Lz4Error::Format);
            },
        }
        if rem_len - 21 < clen {
            return Err(Lz4Error::Format);
        }
        let payload = slice_subrange(self.data.as_slice(), self.pos + 21, self.pos + 21 + clen);
        assert(payload@ =~= rem.subrange(21, 21 + h.compressed_len as int));
        let chunk: Vec<u8> = match h.compression_method {
            CompressionMethod::Raw => slice_to_vec(payload),
            CompressionMethod::Lz4 => {
                let inflated = match self.compression.decompress(payload, dlen) {
                    Ok(v) => v,
                    Err(e) => {
                        return Err(e);
                    },
                };
                if inflated.len() != dlen {
                    return Err(Lz4Error::Backend);
                }
                inflated
            },
        };
        let ck = self.checksum.run(chunk.as_slice());
        if ck != h.checksum {
            return Err(Lz4Error::Checksum);
        }
        self.pos = self.pos + 21 + clen;
        Ok(Some(chunk))
    }

    /// Listing mode: yield the next block's header without materialising
    /// or verifying its payload, which is only skipped to reach the next
    /// header.
    pub fn read_block_meta(&mut self) -> (r: Result<Option<Lz4BlockHeader>, Lz4Error>)
        requires
            old(self).wf(),
        ensures
            final(self).wf(),
            Self::same_source(*old(self), *final(self)),
            spec_meta_step(old(self).remaining()) matches Ok(Some((h, n))) ==> r == Ok::<
                Option<Lz4BlockHeader>,
                Lz4Error,
            >(Some(h)) && final(self).spec_pos() == old(self).spec_pos() + n,
            spec_meta_step(old(self).remaining()) == Ok::<
                Option<(Lz4BlockHeader, int)>,
                Lz4Error,
            >(None) ==> r == Ok::<Option<Lz4BlockHeader>, Lz4Error>(None) && final(self).spec_pos()
                == old(self).spec_pos(),
            spec_meta_step(old(self).remaining()) matches Err(e) ==> r == Err::<
                Option<Lz4BlockHeader>,
                Lz4Error,
            >(e) && final(self).spec_pos() == old(self).spec_pos(),
    {
        let ghost rem = self.remaining();
        let rem_len = self.data.len() - self.pos;
        if rem_len == 0 {
            return Ok(None);
        }
        if rem_len < 21 {
            return Err(Lz4Error::Format);
        }
        let tail = slice_subrange(self.data.as_slice(), self.pos, self.data.len());
        assert(tail@ =~= rem);
        let h = match Lz4BlockHeader::read(tail) {
            Ok(h) => h,
            Err(e) => {
                return Err(e);
            },
        };
        let max_len = h.compression_level.get_max_decompressed_buffer_len();
        let dlen = h.decompressed_len as usize;
        let clen = h.compressed_len as usize;
        if dlen > max_len {
            return Err(Lz4Error::Format);
        }
        match h.compression_method {
            CompressionMethod::Raw => if clen != dlen {
                return Err(Lz4Error::Format);
            },
            CompressionMethod::Lz4 => if clen > dlen {
                return Err(Lz4Error::Format);
            },
        }
        if rem_len - 21 < clen {
            return Err(Lz4Error::Format);
        }
        self.pos = self.pos + 21 + clen;
        Ok(Some(h))
    }

    /// Decode the rest of the stream in one call: every block's original
    /// bytes concatenated, or the first error.
    pub fn read_to_end(&mut self) -> (r: Result<Vec<u8>, Lz4Error>)
        requires
            old(self).wf(),
        ensures
            final(self).wf(),
            Self::same_source(*old(self), *final(self)),
            r matches Ok(v) ==> spec_decode(old(self).remaining(), old(self).spec_checksum())
                == Ok::<Seq<u8>, Lz4Error>(v@),
            r matches Err(e) ==> spec_decode(old(self).remaining(), old(self).spec_checksum())
                == Err::<Seq<u8>, Lz4Error>(e),
    {
        let ghost orig_rem = old(self).remaining();
        let ghost ck = old(self).spec_checksum();
        let mut out: Vec<u8> = Vec::new();
        loop
            invariant
                self.wf(),
                Self::same_source(*old(self), *self),
                self.spec_checksum() == ck,
                orig_rem == old(self).remaining(),
                ck == old(self).spec_checksum(),
                spec_decode(orig_rem, ck) == (match spec_decode(self.remaining(), ck) {
                    Ok(rest) => Ok::<Seq<u8>, Lz4Error>(out@ + rest),
                    Err(e) => Err::<Seq<u8>, Lz4Error>(e),
                }),
            decreases self.source().len() - self.spec_pos(),
        {
            let ghost rem = self.remaining();
            match self.read_block() {
                Ok(None) => {
                    proof {
                        assert(spec_decode(rem, ck) == Ok::<Seq<u8>, Lz4Error>(Seq::empty()));
                        assert(out@ + Seq::<u8>::empty() =~= out@);
                        assert(spec_decode(orig_rem, ck) == Ok::<Seq<u8>, Lz4Error>(out@));
                    }
                    return Ok(out);
                },
                Ok(Some(mut v)) => {
                    let ghost out_old = out@;
                    proof {
                        let (chunk, n) = spec_step(rem, ck)->Ok_0->Some_0;
                        assert(21 <= n <= rem.len());
                        assert(self.remaining() =~= rem.skip(n));
                    }
                    out.append(&mut v);
                    proof {
                        let (chunk, n) = spec_step(rem, ck)->Ok_0->Some_0;
                        assert(out@ == out_old + chunk);
                        match spec_decode(rem.skip(n), ck) {
                            Ok(rest) => {
                                assert(spec_decode(rem, ck) == Ok::<Seq<u8>, Lz4Error>(
                                    chunk + rest,
                                ));
                                assert(out_old + (chunk + rest) =~= out@ + rest);
                            },
                            Err(_) => {},
                        }
                    }
                },
                Err(e) => {
                    proof {
                        assert(spec_decode(rem, ck) == Err::<Seq<u8>, Lz4Error>(e));
                    }
                    return Err(e);
                },
            }
        }
    }
}

/// A decoder never yields bytes silently: whatever block it accepts, the
/// recomputed digest of the yielded bytes equals the checksum stored in
/// that block's header.
pub proof fn lemma_no_silent_corruption(rem: Seq<u8>, ck: Checksum)
    ensures
        spec_step(rem, ck) matches Ok(Some((chunk, n))) ==> ck.spec_run(chunk)
            == Lz4BlockHeader::spec_parse(rem.take(21))->Some_0.checksum,
{
}

/// Corruption detection for a raw block: leave the header (its checksum
/// included) intact and disturb the payload so that its digest no longer
/// matches, and decoding stops with a checksum error — wrong bytes are
/// never returned.
pub proof fn lemma_corruption_detected(
    h: Lz4BlockHeader,
    payload: Seq<u8>,
    rest: Seq<u8>,
    ck: Checksum,
)
    requires
        h.valid(),
        h.compression_method is Raw,
        spec_header_ok(h),
        h.compressed_len == payload.len(),
        ck.spec_run(payload) != h.checksum,
    ensures
        spec_decode(h.spec_bytes() + payload + rest, ck) == Err::<Seq<u8>, Lz4Error>(
            Lz4Error::Checksum,
        ),
{
    let s = h.spec_bytes() + payload + rest;
    assert(s.len() >= 21 + payload.len());
    assert(s.take(21) =~= h.spec_bytes());
    h.lemma_parse_roundtrip();
    assert(s.subrange(21, 21 + h.compressed_len as int) =~= payload);
    assert(spec_step(s, ck) == Err::<Option<(Seq<u8>, int)>, Lz4Error>(Lz4Error::Checksum));
}

/// Round trip, end to end and executable: write any bytes through a
/// fresh encoder at any block size, close it, and decode the framed
/// stream with the same backend and checksum; exactly the original bytes
/// come back.  Succeeds for every input whenever the block size is in
/// range, and rejects an out-of-range block size with a configuration
/// error.
#[verifier::rlimit(60)]
pub fn round_trip(
    data: &[u8],
    block_size: usize,
    compression: Context,
    checksum: Checksum,
) -> (r: Result<Vec<u8>, Lz4Error>)
    ensures
        (r is Ok) <==> (MIN_BLOCK_SIZE <= block_size <= MAX_BLOCK_SIZE),
        r matches Ok(v) ==> v@ == data@,
        r is Err ==> r == Err::<Vec<u8>, Lz4Error>(Lz4Error::Config),
{
    let mut writer = match Lz4BlockOutputBase::with_checksum(
        Vec::new(),
        compression,
        block_size,
        checksum,
    ) {
        Ok(w) => w,
        Err(e) => {
            return Err(e);
        },
    };
    let ghost level = writer.spec_level();
    let ghost bs = writer.spec_block_size();
    proof {
        assert(Seq::<u8>::empty() + data@ =~= data@);
    }
    let _ = writer.write_all(data);
    let ghost chunks = writer.spec_close();
    proof {
        let cut = crate::lz4_block_output::split_full(data@, bs);
        assert(writer.flushed() =~= cut.0);
        lemma_split_full_concat(data@, bs);
        assert(concat_of(writer.flushed()) + writer.buffered() == data@);
    }
    let framed = writer.finish();
    proof {
        assert(concat_of(chunks) == data@);
        assert(framed@ =~= encode_stream(chunks, level, checksum));
        assert(forall|i: int|
            0 <= i < chunks.len() ==> chunk_ok(
                #[trigger] chunks[i],
                level.spec_max_decompressed_len() as int,
            ));
        lemma_round_trip(chunks, level, checksum);
    }
    let mut reader = Lz4BlockInput::with_checksum(framed, compression, checksum);
    proof {
        assert(reader.remaining() =~= encode_stream(chunks, level, checksum));
    }
    match reader.read_to_end() {
        Ok(v) => Ok(v),
        Err(_) => vstd::pervasive::unreached(),
    }
}

/// Round trip: decoding the stream an encoder frames for any chunk
/// sequence yields exactly the original bytes back, for every size class
/// and either checksum.  Each chunk must be a legal block for the class:
/// non-empty, within the class's bound, and known to round-trip through
/// the compression backend, which is exactly what the encoder guarantees
/// of every chunk it frames.
pub proof fn lemma_round_trip(chunks: Seq<Seq<u8>>, level: CompressionLevel, ck: Checksum)
    requires
        level.valid(),
        forall|i: int|
            0 <= i < chunks.len() ==> chunk_ok(
                #[trigger] chunks[i],
                level.spec_max_decompressed_len() as int,
            ),
    ensures
        spec_decode(encode_stream(chunks, level, ck), ck) == Ok::<Seq<u8>, Lz4Error>(
            concat_of(chunks),
        ),
    decreases chunks.len(),
{
    lemma2_to64();
    if level.level < 15 {
        lemma_pow2_strictly_increases((level.level + 10) as nat, 25);
    }
    assert(level.spec_max_decompressed_len() <= 33_554_432);
    if chunks.len() == 0 {
        assert(encode_stream(chunks, level, ck) =~= Seq::<u8>::empty());
    } else {
        let c = chunks[0];
        let rest = chunks.skip(1);
        let s = encode_stream(chunks, level, ck);
        assert(chunk_ok(chunks[0], level.spec_max_decompressed_len() as int));
        let h = Lz4BlockHeader {
            compression_method: method_of(c),
            compression_level: level,
            compressed_len: payload_of(c).len() as u32,
            decompressed_len: c.len() as u32,
            checksum: ck.spec_run(c),
        };
        assert(payload_of(c).len() <= c.len());
        assert(h.compressed_len == payload_of(c).len() && h.decompressed_len == c.len());
        assert(s =~= (h.spec_bytes() + payload_of(c)) + encode_stream(rest, level, ck));
        assert(s.len() >= 21 + payload_of(c).len());
        assert(s.take(21) =~= h.spec_bytes());
        h.lemma_parse_roundtrip();
        assert(spec_header_ok(h));
        assert(s.subrange(21, 21 + h.compressed_len as int) =~= payload_of(c));
        assert(spec_block_bytes(h, payload_of(c)) == Ok::<Seq<u8>, Lz4Error>(c));
        assert(spec_step(s, ck) == Ok::<Option<(Seq<u8>, int)>, Lz4Error>(
            Some((c, 21 + h.compressed_len as int)),
        ));
        assert(s.skip(21 + h.compressed_len as int) =~= encode_stream(rest, level, ck));
        assert(forall|i: int|
            0 <= i < rest.len() ==> chunk_ok(
                #[trigger] rest[i],
                level.spec_max_decompressed_len() as int,
            ));
        lemma_round_trip(rest, level, ck);
        assert(spec_decode(s, ck) == Ok::<Seq<u8>, Lz4Error>(c + concat_of(rest)));
    }
}

} // verus!
