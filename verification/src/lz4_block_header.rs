//! The wire-format record prefixed to every block: a fixed magic signature,
//! one token byte packing the compression method and the size class, then
//! the payload length, the original length and the checksum, each a 32-bit
//! little-endian integer, followed by exactly `payload_len` payload bytes.

use vstd::prelude::*;

use crate::common::Checksum;
use crate::common::Lz4Error;
use vstd::arithmetic::power2::lemma2_to64;
use vstd::arithmetic::power2::lemma_pow2_strictly_increases;
use vstd::arithmetic::power2::pow2;

verus! {

/// Smallest block size a stream may be configured with.
pub const MIN_BLOCK_SIZE: usize = 64;

/// Largest block size a stream may be configured with.
pub const MAX_BLOCK_SIZE: usize = 33_554_432;

/// Bytes in a block header: 8 magic + 1 token + 3 * 4 length/checksum words.
pub const HEADER_LEN: usize = 21;

/// The fixed signature opening every block: the ASCII bytes of "LZ4Block".
pub open spec fn spec_magic() -> Seq<u8> {
    seq![0x4cu8, 0x5au8, 0x34u8, 0x42u8, 0x6cu8, 0x6fu8, 0x63u8, 0x6bu8]
}

/// A 32-bit value as its four little-endian bytes.
pub open spec fn spec_le32(v: u32) -> Seq<u8> {
    seq![
        (v & 0xff) as u8,
        ((v >> 8) & 0xff) as u8,
        ((v >> 16) & 0xff) as u8,
        ((v >> 24) & 0xff) as u8,
    ]
}

/// Four little-endian bytes as the 32-bit value they spell.
pub open spec fn spec_le32_val(b: Seq<u8>) -> u32
    recommends
        b.len() == 4,
{
    (b[0] as u32) | ((b[1] as u32) << 8) | ((b[2] as u32) << 16) | ((b[3] as u32) << 24)
}

/// Reading back the four bytes of `v` yields `v`.
pub proof fn lemma_le32_roundtrip(v: u32)
    ensures
        spec_le32_val(spec_le32(v)) == v,
{
    assert((((v & 0xff) as u8) as u32) | ((((v >> 8) & 0xff) as u8) as u32) << 8 | ((((v >> 16)
        & 0xff) as u8) as u32) << 16 | ((((v >> 24) & 0xff) as u8) as u32) << 24 == v)
        by (bit_vector);
}

/// How a block was stored: verbatim, or LZ4-compressed.
#[derive(Clone, Copy, Debug, PartialEq, Eq, Structural)]
pub enum CompressionMethod {
    Raw,
    Lz4,
}

impl CompressionMethod {
    /// The high nibble of the token byte that stands for this method.
    pub open spec fn spec_nibble(self) -> u8 {
        match self {
            CompressionMethod::Raw => 0x10u8,
            CompressionMethod::Lz4 => 0x20u8,
        }
    }
}

/// The size class of a stream: the low nibble of the token byte.  Class `l`
/// bounds every block's original length by `2^(l + 10)` bytes, so a decoder
/// can size its buffers before reading any payload.
#[derive(Clone, Copy, Debug, PartialEq, Eq, Structural)]
pub struct CompressionLevel {
    pub level: u8,
}

impl CompressionLevel {
    /// The level fits its nibble.
    pub open spec fn valid(self) -> bool {
        self.level <= 15
    }

    /// The largest original length a block of this class may declare.
    pub open spec fn spec_max_decompressed_len(self) -> nat {
        pow2((self.level + 10) as nat)
    }

    /// The smallest size class whose bound covers `block_size`; rejects
    /// block sizes outside `[MIN_BLOCK_SIZE, MAX_BLOCK_SIZE]` with a
    /// configuration error.
    pub fn from_block_size(block_size: usize) -> (r: Result<Self, Lz4Error>)
        ensures
            (r is Ok) <==> (MIN_BLOCK_SIZE <= block_size <= MAX_BLOCK_SIZE),
            r is Err ==> r == Err::<Self, Lz4Error>(Lz4Error::Config),
            r matches Ok(l) ==> l.valid() && block_size <= l.spec_max_decompressed_len() && (
            l.level == 0 || l.spec_max_decompressed_len() < 2 * block_size),
    {
        if block_size < MIN_BLOCK_SIZE || block_size > MAX_BLOCK_SIZE {
            return Err(Lz4Error::Config);
        }
        proof {
            lemma2_to64();
        }
        let mut level: u8 = 0;
        let mut max: usize = 1024;
        while max < block_size
            invariant
                level <= 15,
                max == pow2((level + 10) as nat),
                MIN_BLOCK_SIZE <= block_size <= MAX_BLOCK_SIZE,
                level == 0 || pow2((level + 10) as nat) < 2 * block_size,
                pow2(25) == 33_554_432,
            decreases 15 - level,
        {
            proof {
                if level + 10 >= 25 {
                    if level + 10 > 25 {
                        lemma_pow2_strictly_increases(25, (level + 10) as nat);
                    }
                    assert(max >= 33_554_432);
                    assert(false);
                }
            }
            max = max * 2;
            level = level + 1;
            proof {
                assert(pow2((level + 10) as nat) == 2 * pow2((level + 9) as nat)) by {
                    vstd::arithmetic::power2::lemma_pow2_unfold((level + 10) as nat);
                }
            }
        }
        Ok(CompressionLevel { level })
    }

    /// The buffer bound `2^(level + 10)` as a machine integer.
    pub fn get_max_decompressed_buffer_len(&self) -> (r: usize)
        requires
            self.valid(),
        ensures
            r == self.spec_max_decompressed_len(),
    {
        proof {
            lemma2_to64();
        }
        let mut i: u8 = 0;
        let mut m: usize = 1024;
        while i < self.level
            invariant
                i <= self.level <= 15,
                m == pow2((i + 10) as nat),
                pow2(25) == 33_554_432,
            decreases self.level - i,
        {
            proof {
                if i + 10 >= 25 {
                    if i + 10 > 25 {
                        lemma_pow2_strictly_increases(25, (i + 10) as nat);
                    }
                    assert(false);
                } else {
                    lemma_pow2_strictly_increases((i + 10) as nat, 25);
                }
            }
            m = m * 2;
            i = i + 1;
            proof {
                assert(pow2((i + 10) as nat) == 2 * pow2((i + 9) as nat)) by {
                    vstd::arithmetic::power2::lemma_pow2_unfold((i + 10) as nat);
                }
            }
        }
        m
    }
}

/// The decoded form of a block header.
#[derive(Clone, Copy, Debug, PartialEq, Eq, Structural)]
pub struct Lz4BlockHeader {
    pub compression_method: CompressionMethod,
    pub compression_level: CompressionLevel,
    pub compressed_len: u32,
    pub decompressed_len: u32,
    pub checksum: u32,
}

impl Lz4BlockHeader {
    /// The header's fields fit their wire encoding.
    pub open spec fn valid(self) -> bool {
        self.compression_level.valid()
    }

    /// The token byte: method nibble high, size class nibble low.
    pub open spec fn spec_token(self) -> u8 {
        self.compression_method.spec_nibble() | self.compression_level.level
    }

    /// The 21 bytes this header writes.
    pub open spec fn spec_bytes(self) -> Seq<u8> {
        spec_magic() + seq![self.spec_token()] + spec_le32(self.compressed_len) + spec_le32(
            self.decompressed_len,
        ) + spec_le32(self.checksum)
    }

    /// What decoding 21 bytes yields: `None` when the magic is absent or
    /// the method nibble is unrecognised.
    pub open spec fn spec_parse(s: Seq<u8>) -> Option<Lz4BlockHeader> {
        if s.len() != 21 {
            None
        } else if s.subrange(0, 8) != spec_magic() {
            None
        } else if s[8] >> 4 != 1 && s[8] >> 4 != 2 {
            None
        } else {
            Some(
                (Lz4BlockHeader {
                    compression_method: if s[8] >> 4 == 1 {
                        CompressionMethod::Raw
                    } else {
                        CompressionMethod::Lz4
                    },
                    compression_level: (CompressionLevel { level: s[8] & 0x0f }),
                    compressed_len: spec_le32_val(s.subrange(9, 13)),
                    decompressed_len: spec_le32_val(s.subrange(13, 17)),
                    checksum: spec_le32_val(s.subrange(17, 21)),
                }),
            )
        }
    }

    /// Decoding the bytes of a valid header yields that header back.
    pub proof fn lemma_parse_roundtrip(self)
        requires
            self.valid(),
        ensures
            Self::spec_parse(self.spec_bytes()) == Some(self),
    {
        let s = self.spec_bytes();
        assert(s.len() == 21);
        assert(s.subrange(0, 8) =~= spec_magic());
        let l = self.compression_level.level;
        assert(s[8] == self.spec_token());
        match self.compression_method {
            CompressionMethod::Raw => {
                assert((0x10u8 | l) >> 4 == 1 && (0x10u8 | l) & 0x0f == l) by (bit_vector)
                    requires
                        l <= 15,
                ;
            },
            CompressionMethod::Lz4 => {
                assert((0x20u8 | l) >> 4 == 2 && (0x20u8 | l) & 0x0f == l) by (bit_vector)
                    requires
                        l <= 15,
                ;
            },
        }
        assert(s.subrange(9, 13) =~= spec_le32(self.compressed_len));
        assert(s.subrange(13, 17) =~= spec_le32(self.decompressed_len));
        assert(s.subrange(17, 21) =~= spec_le32(self.checksum));
        lemma_le32_roundtrip(self.compressed_len);
        lemma_le32_roundtrip(self.decompressed_len);
        lemma_le32_roundtrip(self.checksum);
    }

    /// Append this header's 21 wire bytes to `out`.
    pub fn write(&self, out: &mut Vec<u8>)
        requires
            self.valid(),
        ensures
            final(out)@ == old(out)@ + self.spec_bytes(),
    {
        out.push(0x4c);
        out.push(0x5a);
        out.push(0x34);
        out.push(0x42);
        out.push(0x6c);
        out.push(0x6f);
        out.push(0x63);
        out.push(0x6b);
        let nibble: u8 = match self.compression_method {
            CompressionMethod::Raw => 0x10,
            CompressionMethod::Lz4 => 0x20,
        };
        out.push(nibble | self.compression_level.level);
        push_le32(out, self.compressed_len);
        push_le32(out, self.decompressed_len);
        push_le32(out, self.checksum);
        assert(out@ =~= old(out)@ + self.spec_bytes());
    }

    /// Decode the header opening `data`; fewer than 21 bytes, a bad magic
    /// or an unrecognised method nibble is a format error.
    pub fn read(data: &[u8]) -> (r: Result<Lz4BlockHeader, Lz4Error>)
        ensures
            r matches Ok(h) ==> data@.len() >= 21 && Self::spec_parse(data@.take(21)) == Some(h)
                && h.valid(),
            r is Err ==> r == Err::<Lz4BlockHeader, Lz4Error>(Lz4Error::Format) && (data@.len() < 21
                || Self::spec_parse(data@.take(21)) is None),
    {
        if data.len() < 21 {
            return Err(Lz4Error::Format);
        }
        let ghost s = data@.take(21);
        assert(s.len() == 21);
        if data[0] != 0x4c || data[1] != 0x5a || data[2] != 0x34 || data[3] != 0x42 || data[4]
            != 0x6c || data[5] != 0x6f || data[6] != 0x63 || data[7] != 0x6b {
            proof {
                if s.subrange(0, 8) == spec_magic() {
                    assert(forall|i: int| 0 <= i < 8 ==> s.subrange(0, 8)[i] == spec_magic()[i]);
                    assert(false);
                }
            }
            return Err(Lz4Error::Format);
        }
        assert(s.subrange(0, 8) =~= spec_magic());
        let token = data[8];
        let top = token >> 4;
        let level: u8 = token & 0x0f;
        assert(level <= 15) by (bit_vector)
            requires
                level == token & 0x0f,
        ;
        let method = if top == 1 {
            CompressionMethod::Raw
        } else if top == 2 {
            CompressionMethod::Lz4
        } else {
            return Err(Lz4Error::Format);
        };
        let compressed_len = get_le32(data, 9);
        let decompressed_len = get_le32(data, 13);
        let checksum = get_le32(data, 17);
        let h = Lz4BlockHeader {
            compression_method: method,
            compression_level: CompressionLevel { level },
            compressed_len,
            decompressed_len,
            checksum,
        };
        proof {
            assert(s.subrange(9, 13) =~= data@.subrange(9, 13));
            assert(s.subrange(13, 17) =~= data@.subrange(13, 17));
            assert(s.subrange(17, 21) =~= data@.subrange(17, 21));
        }
        Ok(h)
    }

    /// The digest the Java reference encoder stores: xxhash32 under its
    /// fixed seed, with the high 4 bits dropped.
    pub fn default_checksum(data: &[u8]) -> (r: u32)
        ensures
            r == Checksum::JavaCompatible.spec_run(data@),
    {
        Checksum::JavaCompatible.run(data)
    }
}

/// Append the four little-endian bytes of `v` to `out`.
fn push_le32(out: &mut Vec<u8>, v: u32)
    ensures
        final(out)@ == old(out)@ + spec_le32(v),
{
    assert(v & 0xff < 256 && (v >> 8) & 0xff < 256 && (v >> 16) & 0xff < 256 && (v >> 24) & 0xff
        < 256) by (bit_vector);
    out.push((v & 0xff) as u8);
    out.push(((v >> 8) & 0xff) as u8);
    out.push(((v >> 16) & 0xff) as u8);
    out.push(((v >> 24) & 0xff) as u8);
    assert(out@ =~= old(out)@ + spec_le32(v));
}

/// Read the 32-bit little-endian value at offset `i` of `data`.
fn get_le32(data: &[u8], i: usize) -> (r: u32)
    requires
        i + 4 <= data@.len(),
    ensures
        r == spec_le32_val(data@.subrange(i as int, i + 4)),
{
    let b0 = data[i];
    let b1 = data[i + 1];
    let b2 = data[i + 2];
    let b3 = data[i + 3];
    (b0 as u32) | ((b1 as u32) << 8) | ((b2 as u32) << 16) | ((b3 as u32) << 24)
}

} // verus!
