//! The streaming block encoder: accumulates written bytes in a
//! fixed-capacity input buffer, and on each flush compresses the buffered
//! bytes, falls back to storing them verbatim when compression would not
//! shrink them, and frames the result with a block header.

use vstd::prelude::*;

use crate::common::Checksum;
use crate::common::Lz4Error;
use crate::compression::lz4_compressed;
use crate::compression::lz4_round_trips;
use crate::compression::Context;
use crate::lz4_block_header::CompressionLevel;
use crate::lz4_block_header::CompressionMethod;
use crate::lz4_block_header::Lz4BlockHeader;
use crate::lz4_block_header::MAX_BLOCK_SIZE;
use crate::lz4_block_header::MIN_BLOCK_SIZE;
use vstd::slice::slice_subrange;

verus! {

/// The method a block is stored with: compressed only when that shrinks it.
pub open spec fn method_of(chunk: Seq<u8>) -> CompressionMethod {
    if lz4_compressed(chunk).len() < chunk.len() {
        CompressionMethod::Lz4
    } else {
        CompressionMethod::Raw
    }
}

/// The payload a block stores for `chunk`: its compression when that is
/// strictly shorter, otherwise the chunk verbatim.
pub open spec fn payload_of(chunk: Seq<u8>) -> Seq<u8> {
    if lz4_compressed(chunk).len() < chunk.len() {
        lz4_compressed(chunk)
    } else {
        chunk
    }
}

/// The framed block a flush of `chunk` emits: header, then payload.  The
/// checksum is computed over the original bytes, not the payload.
pub open spec fn frame_of(chunk: Seq<u8>, level: CompressionLevel, ck: Checksum) -> Seq<u8> {
    (Lz4BlockHeader {
        compression_method: method_of(chunk),
        compression_level: level,
        compressed_len: payload_of(chunk).len() as u32,
        decompressed_len: chunk.len() as u32,
        checksum: ck.spec_run(chunk),
    }).spec_bytes() + payload_of(chunk)
}

/// The byte stream that framing each chunk in turn produces.
pub open spec fn encode_stream(chunks: Seq<Seq<u8>>, level: CompressionLevel, ck: Checksum) -> Seq<
    u8,
>
    decreases chunks.len(),
{
    if chunks.len() == 0 {
        Seq::empty()
    } else {
        frame_of(chunks[0], level, ck) + encode_stream(chunks.skip(1), level, ck)
    }
}

/// The original bytes the chunks carry, in order.
pub open spec fn concat_of(chunks: Seq<Seq<u8>>) -> Seq<u8>
    decreases chunks.len(),
{
    if chunks.len() == 0 {
        Seq::empty()
    } else {
        chunks[0] + concat_of(chunks.skip(1))
    }
}

/// Framing one more chunk appends exactly that chunk's frame.
pub proof fn lemma_encode_stream_push(
    chunks: Seq<Seq<u8>>,
    c: Seq<u8>,
    level: CompressionLevel,
    ck: Checksum,
)
    ensures
        encode_stream(chunks.push(c), level, ck) == encode_stream(chunks, level, ck) + frame_of(
            c,
            level,
            ck,
        ),
    decreases chunks.len(),
{
    assert(chunks.push(c).len() == chunks.len() + 1);
    assert(chunks.push(c)[0] == if chunks.len() == 0 { c } else { chunks[0] });
    if chunks.len() == 0 {
        assert(chunks.push(c).skip(1) =~= Seq::<Seq<u8>>::empty());
        assert(encode_stream(chunks.push(c), level, ck) == frame_of(c, level, ck) + encode_stream(
            Seq::<Seq<u8>>::empty(),
            level,
            ck,
        ));
        assert(encode_stream(chunks.push(c), level, ck) =~= encode_stream(chunks, level, ck)
            + frame_of(c, level, ck));
    } else {
        assert(chunks.push(c).skip(1) =~= chunks.skip(1).push(c));
        lemma_encode_stream_push(chunks.skip(1), c, level, ck);
        assert(encode_stream(chunks.push(c), level, ck) =~= encode_stream(chunks, level, ck)
            + frame_of(c, level, ck));
    }
}

/// Appending a chunk appends its bytes to the carried content.
pub proof fn lemma_concat_push(chunks: Seq<Seq<u8>>, c: Seq<u8>)
    ensures
        concat_of(chunks.push(c)) == concat_of(chunks) + c,
    decreases chunks.len(),
{
    assert(chunks.push(c).len() == chunks.len() + 1);
    assert(chunks.push(c)[0] == if chunks.len() == 0 { c } else { chunks[0] });
    if chunks.len() == 0 {
        assert(chunks.push(c).skip(1) =~= Seq::<Seq<u8>>::empty());
        assert(concat_of(chunks.push(c)) == c + concat_of(Seq::<Seq<u8>>::empty()));
        assert(concat_of(chunks.push(c)) =~= concat_of(chunks) + c);
    } else {
        assert(chunks.push(c).skip(1) =~= chunks.skip(1).push(c));
        lemma_concat_push(chunks.skip(1), c);
        assert(concat_of(chunks.push(c)) =~= concat_of(chunks) + c);
    }
}

/// How a write-only caller's bytes fall into blocks: the full blocks cut
/// from `total` in order, and the tail that stays buffered.  The tail may
/// itself be exactly one full block: the encoder flushes lazily, on the
/// next write after the buffer fills.
pub open spec fn split_full(total: Seq<u8>, bs: int) -> (Seq<Seq<u8>>, Seq<u8>)
    decreases total.len(),
{
    if bs < 1 || total.len() <= bs {
        (Seq::empty(), total)
    } else {
        let (cs, tail) = split_full(total.skip(bs), bs);
        (seq![total.take(bs)] + cs, tail)
    }
}

/// Appending up to a block of bytes to a run whose tail is exactly full
/// first cuts that tail off as a block of its own.
pub proof fn lemma_split_full_snoc_full(t: Seq<u8>, d: Seq<u8>, bs: int)
    requires
        bs >= 1,
        split_full(t, bs).1.len() == bs,
        0 < d.len() <= bs,
    ensures
        split_full(t + d, bs).0 == split_full(t, bs).0.push(split_full(t, bs).1),
        split_full(t + d, bs).1 == d,
    decreases t.len(),
{
    if t.len() <= bs {
        assert(t.len() == bs);
        assert(split_full(t, bs) == (Seq::<Seq<u8>>::empty(), t));
        assert(split_full(d, bs) == (Seq::<Seq<u8>>::empty(), d));
        assert((t + d).take(bs) =~= t);
        assert((t + d).skip(bs) =~= d);
        assert(split_full(t + d, bs).0 == seq![t] + Seq::<Seq<u8>>::empty());
        assert(split_full(t + d, bs).0 =~= split_full(t, bs).0.push(t));
    } else {
        assert((t + d).take(bs) =~= t.take(bs));
        assert((t + d).skip(bs) =~= t.skip(bs) + d);
        lemma_split_full_snoc_full(t.skip(bs), d, bs);
        assert(split_full(t + d, bs).0 =~= split_full(t, bs).0.push(split_full(t, bs).1));
    }
}

/// Appending bytes that still fit beside a partial tail only grows the
/// tail; no new block is cut.
pub proof fn lemma_split_full_snoc_partial(t: Seq<u8>, d: Seq<u8>, bs: int)
    requires
        bs >= 1,
        split_full(t, bs).1.len() < bs,
        d.len() <= bs - split_full(t, bs).1.len(),
    ensures
        split_full(t + d, bs).0 == split_full(t, bs).0,
        split_full(t + d, bs).1 == split_full(t, bs).1 + d,
    decreases t.len(),
{
    if t.len() <= bs {
        assert(split_full(t, bs) == (Seq::<Seq<u8>>::empty(), t));
        assert((t + d).len() <= bs);
        assert(split_full(t + d, bs).1 =~= split_full(t, bs).1 + d);
        assert(split_full(t + d, bs).0 =~= split_full(t, bs).0);
    } else {
        assert((t + d).take(bs) =~= t.take(bs));
        assert((t + d).skip(bs) =~= t.skip(bs) + d);
        lemma_split_full_snoc_partial(t.skip(bs), d, bs);
        assert(split_full(t + d, bs).0 =~= split_full(t, bs).0);
    }
}

/// Cutting a run into blocks loses nothing: the blocks and the tail carry
/// exactly the original bytes.
pub proof fn lemma_split_full_concat(total: Seq<u8>, bs: int)
    requires
        bs >= 1,
    ensures
        concat_of(split_full(total, bs).0) + split_full(total, bs).1 == total,
    decreases total.len(),
{
    if total.len() <= bs {
        assert(concat_of(Seq::<Seq<u8>>::empty()) + total =~= total);
    } else {
        lemma_split_full_concat(total.skip(bs), bs);
        let cs = split_full(total.skip(bs), bs).0;
        let tail = split_full(total.skip(bs), bs).1;
        let whole = seq![total.take(bs)] + cs;
        assert(split_full(total, bs).0 == whole);
        assert(split_full(total, bs).1 == tail);
        assert(whole[0] == total.take(bs));
        assert(whole.skip(1) =~= cs);
        assert(concat_of(whole) == total.take(bs) + concat_of(cs));
        assert(concat_of(cs) + tail == total.skip(bs));
        assert((total.take(bs) + concat_of(cs)) + tail =~= total.take(bs) + (concat_of(cs)
            + tail));
        assert(total.take(bs) + total.skip(bs) =~= total);
    }
}

/// Block splitting: a run of exactly `k` blocks' worth of bytes cuts into
/// `k - 1` full blocks with one full block left buffered, every block of
/// length exactly `bs` — so a write-only caller who then closes the
/// stream gets exactly `k` framed blocks, however their write calls were
/// chunked.
pub proof fn lemma_block_splitting(b: Seq<u8>, bs: int, k: nat)
    requires
        bs >= 1,
        k >= 1,
        b.len() == k * bs,
    ensures
        split_full(b, bs).0.len() == k - 1,
        split_full(b, bs).1.len() == bs,
        forall|i: int|
            0 <= i < split_full(b, bs).0.len() ==> #[trigger] split_full(b, bs).0[i].len() == bs,
    decreases k,
{
    if k == 1 {
        assert(k * bs == bs) by (nonlinear_arith)
            requires
                k == 1,
        ;
        assert(b.len() == bs);
    } else {
        assert(k * bs - bs == (k - 1) * bs) by (nonlinear_arith);
        assert((k - 1) * bs >= bs) by (nonlinear_arith)
            requires
                k >= 2,
                bs >= 1,
        ;
        assert(b.len() > bs);
        assert(b.skip(bs).len() == (k - 1) * bs);
        lemma_block_splitting(b.skip(bs), bs, (k - 1) as nat);
        assert(b.take(bs).len() == bs);
        assert(forall|i: int|
            0 <= i < split_full(b, bs).0.len() ==> #[trigger] split_full(b, bs).0[i].len() == bs);
    }
}

/// Raw fallback: a chunk whose compression would not shrink it is stored
/// verbatim, so its block's payload length equals its original length.
pub proof fn lemma_raw_fallback(chunk: Seq<u8>)
    requires
        lz4_compressed(chunk).len() >= chunk.len(),
    ensures
        method_of(chunk) is Raw,
        payload_of(chunk) == chunk,
{
}

/// A chunk the encoder has flushed: non-empty, within the block size, and
/// known to round-trip through the compression backend.
pub open spec fn chunk_ok(c: Seq<u8>, block_size: int) -> bool {
    &&& 1 <= c.len() <= block_size
    &&& lz4_round_trips(c)
}

/// The streaming block encoder.  Use the alias [`Lz4BlockOutput`] unless a
/// non-default checksum or backend is wanted.
pub struct Lz4BlockOutputBase {
    writer: Vec<u8>,
    compression: Context,
    compression_level: CompressionLevel,
    decompressed_buf: Vec<u8>,
    checksum: Checksum,
    block_size: usize,
    init: Ghost<Seq<u8>>,
    chunks: Ghost<Seq<Seq<u8>>>,
}

/// The encoder with the default backend.
pub type Lz4BlockOutput = Lz4BlockOutputBase;

impl Lz4BlockOutputBase {
    /// The bytes buffered but not yet framed.
    pub closed spec fn buffered(&self) -> Seq<u8> {
        self.decompressed_buf@
    }

    /// The chunks flushed so far, each one block's original bytes.
    pub closed spec fn flushed(&self) -> Seq<Seq<u8>> {
        self.chunks@
    }

    /// Everything written to the underlying sink, initial content included.
    pub closed spec fn sink(&self) -> Seq<u8> {
        self.writer@
    }

    /// What the sink held when the encoder was built.
    pub closed spec fn initial(&self) -> Seq<u8> {
        self.init@
    }

    pub closed spec fn spec_block_size(&self) -> int {
        self.block_size as int
    }

    pub closed spec fn spec_checksum(&self) -> Checksum {
        self.checksum
    }

    pub closed spec fn spec_compression(&self) -> Context {
        self.compression
    }

    pub closed spec fn spec_level(&self) -> CompressionLevel {
        self.compression_level
    }

    /// The configuration chosen at construction never changes.
    pub open spec fn same_config(a: Self, b: Self) -> bool {
        &&& a.spec_compression() == b.spec_compression()
        &&& a.spec_level() == b.spec_level()
        &&& a.spec_checksum() == b.spec_checksum()
        &&& a.spec_block_size() == b.spec_block_size()
        &&& a.initial() == b.initial()
    }

    /// The encoder's invariant: the buffer never exceeds the block size,
    /// every flushed chunk was a legal block, and the sink holds exactly
    /// the initial bytes followed by the frames of the flushed chunks.
    pub open spec fn wf(&self) -> bool {
        &&& MIN_BLOCK_SIZE <= self.spec_block_size() <= MAX_BLOCK_SIZE
        &&& self.spec_level().valid()
        &&& self.spec_block_size() <= self.spec_level().spec_max_decompressed_len()
        &&& self.buffered().len() <= self.spec_block_size()
        &&& (forall|i: int|
            0 <= i < self.flushed().len() ==> chunk_ok(
                #[trigger] self.flushed()[i],
                self.spec_block_size(),
            ))
        &&& self.sink() == self.initial() + encode_stream(
            self.flushed(),
            self.spec_level(),
            self.spec_checksum(),
        )
    }

    /// The default block size: 65536 bytes.
    pub fn default_block_size() -> (r: usize)
        ensures
            r == 65536,
    {
        65536
    }

    /// Build an encoder with the default checksum, which reproduces the
    /// Java reference digest including its dropped high 4 bits.
    pub fn with_context(writer: Vec<u8>, compression: Context, block_size: usize) -> (r: Result<
        Self,
        Lz4Error,
    >)
        ensures
            (r is Ok) <==> (MIN_BLOCK_SIZE <= block_size <= MAX_BLOCK_SIZE),
            r is Err ==> r == Err::<Self, Lz4Error>(Lz4Error::Config),
            r matches Ok(s) ==> s.wf() && s.flushed() == Seq::<Seq<u8>>::empty() && s.buffered()
                == Seq::<u8>::empty() && s.initial() == writer@ && s.sink() == writer@
                && s.spec_block_size() == block_size && s.spec_checksum()
                == Checksum::JavaCompatible && s.spec_compression() == compression,
    {
        Self::with_checksum(writer, compression, block_size, Checksum::JavaCompatible)
    }

    /// Build an encoder.  The block size must lie in
    /// `[MIN_BLOCK_SIZE, MAX_BLOCK_SIZE]`; anything else is a
    /// configuration error.
    pub fn with_checksum(
        writer: Vec<u8>,
        compression: Context,
        block_size: usize,
        checksum: Checksum,
    ) -> (r: Result<Self, Lz4Error>)
        ensures
            (r is Ok) <==> (MIN_BLOCK_SIZE <= block_size <= MAX_BLOCK_SIZE),
            r is Err ==> r == Err::<Self, Lz4Error>(Lz4Error::Config),
            r matches Ok(s) ==> s.wf() && s.flushed() == Seq::<Seq<u8>>::empty() && s.buffered()
                == Seq::<u8>::empty() && s.initial() == writer@ && s.sink() == writer@
                && s.spec_block_size() == block_size && s.spec_checksum() == checksum
                && s.spec_compression() == compression,
    {
        let compression_level = match CompressionLevel::from_block_size(block_size) {
            Ok(l) => l,
            Err(e) => {
                return Err(e);
            },
        };
        let ghost iw = writer@;
        let s = Lz4BlockOutputBase {
            writer,
            compression,
            compression_level,
            decompressed_buf: Vec::new(),
            checksum,
            block_size,
            init: Ghost(iw),
            chunks: Ghost(Seq::empty()),
        };
        Ok(s)
    }

    /// Build an encoder with every default: the default backend, the
    /// default block size and the Java-compatible checksum.
    pub fn new(writer: Vec<u8>) -> (r: Self)
        ensures
            r.wf(),
            r.flushed() == Seq::<Seq<u8>>::empty(),
            r.buffered() == Seq::<u8>::empty(),
            r.initial() == writer@,
            r.sink() == writer@,
            r.spec_block_size() == 65536,
            r.spec_checksum() == Checksum::JavaCompatible,
            r.spec_compression() == Context::Lz4Flex,
    {
        let block_size = Self::default_block_size();
        match Self::with_context(writer, Context::default(), block_size) {
            Ok(s) => s,
            Err(_) => vstd::pervasive::unreached(),
        }
    }

    /// How many more bytes fit in the input buffer before it is full.
    fn remaining_buf_len(&self) -> (r: usize)
        requires
            self.wf(),
        ensures
            r == self.spec_block_size() - self.buffered().len(),
    {
        self.block_size - self.decompressed_buf.len()
    }

    /// Append `buf` to the input buffer; the caller has checked it fits.
    fn copy_to_buf(&mut self, buf: &[u8]) -> (r: usize)
        requires
            old(self).wf(),
            buf@.len() + old(self).buffered().len() <= old(self).spec_block_size(),
        ensures
            final(self).wf(),
            Self::same_config(*old(self), *final(self)),
            final(self).flushed() == old(self).flushed(),
            final(self).sink() == old(self).sink(),
            final(self).buffered() == old(self).buffered() + buf@,
            r == buf@.len(),
    {
        let len = buf.len();
        let mut i: usize = 0;
        while i < len
            invariant
                i <= len == buf@.len(),
                buf@.len() + old(self).buffered().len() <= old(self).spec_block_size(),
                self.decompressed_buf@ == old(self).decompressed_buf@ + buf@.take(i as int),
                self.writer == old(self).writer,
                self.chunks == old(self).chunks,
                self.init == old(self).init,
                self.compression == old(self).compression,
                self.compression_level == old(self).compression_level,
                self.checksum == old(self).checksum,
                self.block_size == old(self).block_size,
            decreases len - i,
        {
            let b = buf[i];
            self.decompressed_buf.push(b);
            i = i + 1;
            assert(self.decompressed_buf@ =~= old(self).decompressed_buf@ + buf@.take(i as int));
        }
        assert(buf@.take(len as int) =~= buf@);
        len
    }

    /// Consume as much of `buf` as fits in the input buffer, flushing
    /// first when the buffer is already full on entry.  Returns how many
    /// bytes were consumed; callers loop for the rest, as with any
    /// streaming write.  Writing zero bytes is a no-op: nothing is
    /// flushed, framed or buffered.
    pub fn write(&mut self, buf: &[u8]) -> (r: Result<usize, Lz4Error>)
        requires
            old(self).wf(),
        ensures
            final(self).wf(),
            Self::same_config(*old(self), *final(self)),
            buf@.len() == 0 ==> *final(self) == *old(self) && r == Ok::<usize, Lz4Error>(0),
            buf@.len() > 0 ==> ({
                let was_full = old(self).buffered().len() == old(self).spec_block_size();
                let start = if was_full {
                    Seq::<u8>::empty()
                } else {
                    old(self).buffered()
                };
                let n = if buf@.len() <= old(self).spec_block_size() - start.len() {
                    buf@.len() as int
                } else {
                    old(self).spec_block_size() - start.len()
                };
                &&& r == Ok::<usize, Lz4Error>(n as usize)
                &&& final(self).flushed() == (if was_full {
                    old(self).flushed().push(old(self).buffered())
                } else {
                    old(self).flushed()
                })
                &&& final(self).buffered() == start + buf@.take(n)
            }),
    {
        if buf.len() == 0 {
            return Ok(0);
        }
        if self.decompressed_buf.len() == self.block_size {
            self.flush()?;
        }
        let cap = self.remaining_buf_len();
        let n = if buf.len() <= cap {
            buf.len()
        } else {
            cap
        };
        let took = self.copy_to_buf(slice_subrange(buf, 0, n));
        assert(buf@.subrange(0, n as int) =~= buf@.take(n as int));
        Ok(took)
    }

    /// Consume all of `buf`, looping over `write`, so the bytes fall into
    /// blocks exactly as `split_full` says: full blocks are flushed as
    /// they are passed, and the tail stays buffered for the next write or
    /// flush.
    pub fn write_all(&mut self, buf: &[u8]) -> (r: Result<(), Lz4Error>)
        requires
            old(self).wf(),
        ensures
            final(self).wf(),
            Self::same_config(*old(self), *final(self)),
            r == Ok::<(), Lz4Error>(()),
            final(self).flushed() == old(self).flushed() + split_full(
                old(self).buffered() + buf@,
                old(self).spec_block_size(),
            ).0,
            final(self).buffered() == split_full(
                old(self).buffered() + buf@,
                old(self).spec_block_size(),
            ).1,
    {
        let ghost bs = old(self).spec_block_size();
        let ghost buffered0 = old(self).buffered();
        let ghost flushed0 = old(self).flushed();
        proof {
            assert(buffered0 + buf@.take(0) =~= buffered0);
            assert(split_full(buffered0, bs).1 =~= buffered0);
            assert(flushed0 + split_full(buffered0, bs).0 =~= flushed0);
        }
        let len = buf.len();
        let mut i: usize = 0;
        while i < len
            invariant
                self.wf(),
                Self::same_config(*old(self), *self),
                i <= len == buf@.len(),
                bs == old(self).spec_block_size(),
                buffered0 == old(self).buffered(),
                flushed0 == old(self).flushed(),
                self.flushed() == flushed0 + split_full(buffered0 + buf@.take(i as int), bs).0,
                self.buffered() == split_full(buffered0 + buf@.take(i as int), bs).1,
            decreases len - i,
        {
            let ghost t = buffered0 + buf@.take(i as int);
            let ghost pre = *self;
            let n = match self.write(slice_subrange(buf, i, len)) {
                Ok(n) => n,
                Err(e) => {
                    return Err(e);
                },
            };
            proof {
                let d = buf@.subrange(i as int, i + n);
                assert(buf@.subrange(i as int, len as int).take(n as int) =~= d);
                assert(t + d =~= buffered0 + buf@.take(i + n));
                if pre.buffered().len() == bs {
                    assert(0 < d.len() <= bs);
                    lemma_split_full_snoc_full(t, d, bs);
                    assert(self.buffered() =~= d);
                } else {
                    lemma_split_full_snoc_partial(t, d, bs);
                }
            }
            i = i + n;
        }
        proof {
            assert(buf@.take(len as int) =~= buf@);
        }
        Ok(())
    }

    /// Frame and write the buffered bytes, if any: compress them, fall
    /// back to the raw bytes when compression does not shrink them, write
    /// the header and the chosen payload, and reset the buffer.  With an
    /// empty buffer this writes nothing, so a second flush with no
    /// intervening write leaves the sink untouched.
    pub fn flush(&mut self) -> (r: Result<(), Lz4Error>)
        requires
            old(self).wf(),
        ensures
            final(self).wf(),
            Self::same_config(*old(self), *final(self)),
            r == Ok::<(), Lz4Error>(()),
            final(self).buffered() == Seq::<u8>::empty(),
            final(self).flushed() == (if old(self).buffered().len() > 0 {
                old(self).flushed().push(old(self).buffered())
            } else {
                old(self).flushed()
            }),
            old(self).buffered().len() == 0 ==> final(self).sink() == old(self).sink(),
    {
        if self.decompressed_buf.len() > 0 {
            let ghost pending = self.decompressed_buf@;
            let ghost old_chunks = self.chunks@;
            let mut compressed = self.compression.compress(self.decompressed_buf.as_slice());
            let use_compressed = compressed.len() < self.decompressed_buf.len();
            let method = if use_compressed {
                CompressionMethod::Lz4
            } else {
                CompressionMethod::Raw
            };
            let payload_len = if use_compressed {
                compressed.len()
            } else {
                self.decompressed_buf.len()
            };
            let ck = self.checksum.run(self.decompressed_buf.as_slice());
            let header = Lz4BlockHeader {
                compression_method: method,
                compression_level: self.compression_level,
                compressed_len: payload_len as u32,
                decompressed_len: self.decompressed_buf.len() as u32,
                checksum: ck,
            };
            header.write(&mut self.writer);
            if use_compressed {
                self.writer.append(&mut compressed);
                self.decompressed_buf.clear();
            } else {
                self.writer.append(&mut self.decompressed_buf);
            }
            self.chunks = Ghost(old_chunks.push(pending));
            proof {
                assert(header.spec_bytes() + payload_of(pending) =~= frame_of(
                    pending,
                    self.compression_level,
                    self.checksum,
                ));
                lemma_encode_stream_push(
                    old_chunks,
                    pending,
                    self.compression_level,
                    self.checksum,
                );
                assert(self.writer@ =~= self.init@ + encode_stream(
                    self.chunks@,
                    self.compression_level,
                    self.checksum,
                ));
            }
        }
        Ok(())
    }

    /// The chunks the stream holds once the encoder is closed: the flushed
    /// ones, plus the buffered bytes as one final block when any remain.
    pub open spec fn spec_close(self) -> Seq<Seq<u8>> {
        if self.buffered().len() > 0 {
            self.flushed().push(self.buffered())
        } else {
            self.flushed()
        }
    }

    /// Close the encoder: flush any buffered bytes exactly once and hand
    /// the sink back.  Callers must invoke this rather than drop the
    /// encoder, so no buffered bytes are silently lost.
    pub fn finish(self) -> (r: Vec<u8>)
        requires
            self.wf(),
        ensures
            r@ == self.initial() + encode_stream(
                self.spec_close(),
                self.spec_level(),
                self.spec_checksum(),
            ),
            forall|i: int|
                0 <= i < self.spec_close().len() ==> chunk_ok(
                    #[trigger] self.spec_close()[i],
                    self.spec_block_size(),
                ),
            concat_of(self.spec_close()) == concat_of(self.flushed()) + self.buffered(),
    {
        let mut s = self;
        let _ = s.flush();
        proof {
            if self.buffered().len() > 0 {
                lemma_concat_push(self.flushed(), self.buffered());
            } else {
                assert(concat_of(self.spec_close()) =~= concat_of(self.flushed())
                    + self.buffered());
            }
        }
        let Lz4BlockOutputBase { writer, .. } = s;
        writer
    }
}

} // verus!
