use lz4jb::Checksum;
use lz4jb::CompressionMethod;
use lz4jb::Context;
use lz4jb::Lz4BlockHeader;
use lz4jb::Lz4BlockInput;
use lz4jb::Lz4BlockOutput;
use lz4jb::Lz4Error;

fn encode(data: &[u8], block_size: usize) -> Vec<u8> {
    let mut writer =
        Lz4BlockOutput::with_context(Vec::new(), Context::default(), block_size).unwrap();
    writer.write_all(data).unwrap();
    writer.finish()
}

fn decode(data: Vec<u8>) -> Result<Vec<u8>, Lz4Error> {
    Lz4BlockInput::new(data).read_to_end()
}

/// Deterministic noise that LZ4 cannot shrink.
fn incompressible(len: usize) -> Vec<u8> {
    let mut state: u64 = 0x243f_6a88_85a3_08d3;
    let mut out = Vec::with_capacity(len);
    for _ in 0..len {
        state = state.wrapping_mul(6364136223846793005).wrapping_add(1442695040888963407);
        out.push((state >> 33) as u8);
    }
    out
}

#[test]
fn round_trip_in_one_call() {
    let data = incompressible(777);
    let back = lz4jb::lz4_block_input::round_trip(
        &data,
        64,
        Context::default(),
        Checksum::JavaCompatible,
    )
    .unwrap();
    assert_eq!(back, data);
    assert_eq!(
        lz4jb::lz4_block_input::round_trip(&data, 63, Context::default(), Checksum::JavaCompatible),
        Err(Lz4Error::Config)
    );
}

#[test]
fn round_trip_text() {
    let data: Vec<u8> = b"the quick brown fox jumps over the lazy dog ".repeat(100);
    for block_size in [64usize, 100, 1024, 65536] {
        let framed = encode(&data, block_size);
        assert_eq!(decode(framed).unwrap(), data);
    }
}

#[test]
fn round_trip_noise() {
    let data = incompressible(5000);
    for block_size in [64usize, 333, 65536] {
        let framed = encode(&data, block_size);
        assert_eq!(decode(framed).unwrap(), data);
    }
}

#[test]
fn round_trip_empty() {
    let framed = encode(b"", 64);
    assert_eq!(framed, Vec::<u8>::new());
    assert_eq!(decode(framed).unwrap(), Vec::<u8>::new());
}

#[test]
fn round_trip_chunked_writes() {
    // The same bytes written in ragged pieces frame identically.
    let data = incompressible(1000);
    let whole = encode(&data, 128);
    let mut writer = Lz4BlockOutput::with_context(Vec::new(), Context::default(), 128).unwrap();
    for piece in data.chunks(77) {
        writer.write_all(piece).unwrap();
    }
    let ragged = writer.finish();
    assert_eq!(whole, ragged);
    assert_eq!(decode(ragged).unwrap(), data);
}

#[test]
fn zero_byte_write_is_a_no_op() {
    // Even with the input buffer exactly full, writing zero bytes frames
    // nothing and consumes nothing.
    let mut writer = Lz4BlockOutput::with_context(Vec::new(), Context::default(), 64).unwrap();
    writer.write_all(&['.' as u8; 64]).unwrap();
    assert_eq!(writer.write(&[]).unwrap(), 0);
    writer.write_all(&[]).unwrap();
    let out = writer.finish();
    // One block only: the 64 buffered bytes, framed by the closing flush.
    assert_eq!(out.windows(8).filter(|w| *w == b"LZ4Block").count(), 1);
}

#[test]
fn flush_twice_is_flush_once() {
    let mut once = Lz4BlockOutput::with_context(Vec::new(), Context::default(), 128).unwrap();
    once.write_all(b"some buffered bytes").unwrap();
    once.flush().unwrap();
    let once_out = once.finish();

    let mut twice = Lz4BlockOutput::with_context(Vec::new(), Context::default(), 128).unwrap();
    twice.write_all(b"some buffered bytes").unwrap();
    twice.flush().unwrap();
    twice.flush().unwrap();
    let twice_out = twice.finish();
    assert_eq!(once_out, twice_out);
}

#[test]
fn raw_fallback_for_incompressible_input() {
    let data = incompressible(64);
    let framed = encode(&data, 64);
    let header = Lz4BlockHeader::read(&framed).unwrap();
    assert_eq!(header.compression_method, CompressionMethod::Raw);
    assert_eq!(header.compressed_len, header.decompressed_len);
    assert_eq!(header.compressed_len, 64);
    assert_eq!(framed.len(), 21 + 64);
}

#[test]
fn compressible_input_is_compressed() {
    let framed = encode(&['.' as u8; 128], 128);
    let header = Lz4BlockHeader::read(&framed).unwrap();
    assert_eq!(header.compression_method, CompressionMethod::Lz4);
    assert!(header.compressed_len < header.decompressed_len);
    assert_eq!(header.decompressed_len, 128);
}

#[test]
fn block_splitting_counts() {
    // k blocks' worth of data gives exactly k framed blocks, however the
    // write calls are chunked.
    let data = incompressible(6 * 64);
    for chunking in [1usize, 7, 64, 100, 384] {
        let mut writer = Lz4BlockOutput::with_context(Vec::new(), Context::default(), 64).unwrap();
        for piece in data.chunks(chunking) {
            writer.write_all(piece).unwrap();
        }
        let out = writer.finish();
        let mut blocks = 0;
        let mut decoder = Lz4BlockInput::new(out);
        while let Some(chunk) = decoder.read_block().unwrap() {
            assert_eq!(chunk.len(), 64);
            blocks += 1;
        }
        assert_eq!(blocks, 6);
    }
}

#[test]
fn default_checksum_reproduces_reference_digest() {
    // xxhash32 under the reference seed with the high 4 bits dropped.
    assert_eq!(Lz4BlockHeader::default_checksum(b"..."), 0x0677e452);
    assert_eq!(Lz4BlockHeader::default_checksum(b""), 0x0d3b42d8);
    assert_eq!(Lz4BlockHeader::default_checksum(b"hello"), 0x0a41bfe3);
    let full = xxhash_rust::xxh32::xxh32(b"...", 0x9747b28c);
    assert_eq!(Lz4BlockHeader::default_checksum(b"..."), full & 0x0FFFFFFF);
}

#[test]
fn default_checksum_drops_high_bits() {
    let masked = Checksum::JavaCompatible.run(b"hello");
    let plain = Checksum::PlainXxh32.run(b"hello");
    assert_eq!(plain, 0x7a41bfe3);
    assert_ne!(masked, plain);
    assert_eq!(masked, plain & 0x0FFFFFFF);
}

#[test]
fn checksum_mismatch_between_writer_and_reader() {
    let mut writer =
        Lz4BlockOutput::with_checksum(Vec::new(), Context::default(), 64, Checksum::PlainXxh32)
            .unwrap();
    writer.write_all(b"hello").unwrap();
    let framed = writer.finish();
    assert_eq!(decode(framed.clone()), Err(Lz4Error::Checksum));
    let mut matching =
        Lz4BlockInput::with_checksum(framed, Context::default(), Checksum::PlainXxh32);
    assert_eq!(matching.read_to_end().unwrap(), b"hello");
}

#[test]
fn corruption_of_raw_payload_is_detected() {
    // One raw block of "...": flip every single bit of the payload while
    // leaving the header checksum untouched.
    let framed = encode(b"...", 128);
    assert_eq!(framed.len(), 24);
    for byte in 21..24 {
        for bit in 0..8 {
            let mut corrupt = framed.clone();
            corrupt[byte] ^= 1u8 << bit;
            assert_eq!(decode(corrupt), Err(Lz4Error::Checksum));
        }
    }
}

#[test]
fn corruption_of_compressed_payload_never_yields_wrong_bytes() {
    let original = vec!['.' as u8; 128];
    let framed = encode(&original, 128);
    for byte in 21..framed.len() {
        for bit in 0..8 {
            let mut corrupt = framed.clone();
            corrupt[byte] ^= 1u8 << bit;
            match decode(corrupt) {
                Ok(decoded) => assert_eq!(decoded, original),
                Err(_) => {},
            }
        }
    }
}

#[test]
fn boundary_block_sizes() {
    for block_size in [64usize, 33_554_432] {
        let mut writer =
            Lz4BlockOutput::with_context(Vec::new(), Context::default(), block_size).unwrap();
        writer.write_all(b"boundary").unwrap();
        assert_eq!(decode(writer.finish()).unwrap(), b"boundary");
    }
    assert_eq!(
        Lz4BlockOutput::with_context(Vec::new(), Context::default(), 63).err(),
        Some(Lz4Error::Config)
    );
    assert_eq!(
        Lz4BlockOutput::with_context(Vec::new(), Context::default(), 33_554_433).err(),
        Some(Lz4Error::Config)
    );
}

#[test]
fn trailing_garbage_is_a_format_error() {
    let mut framed = encode(b"...", 128);
    framed.extend_from_slice(b"junk");
    assert_eq!(decode(framed), Err(Lz4Error::Format));
}

#[test]
fn list_mode_reports_headers_without_decoding() {
    let data = incompressible(200);
    let framed = encode(&data, 64);
    let mut reader = Lz4BlockInput::new(framed);
    let mut lens = Vec::new();
    while let Some(h) = reader.read_block_meta().unwrap() {
        lens.push(h.decompressed_len);
    }
    assert_eq!(lens, vec![64, 64, 64, 8]);
}

#[test]
fn empty_stream_decodes_to_nothing() {
    let mut decoder = Lz4BlockInput::new(Vec::new());
    assert_eq!(decoder.read_block(), Ok(None));
    assert_eq!(decoder.read_to_end().unwrap(), Vec::<u8>::new());
}

#[test]
fn truncated_header_is_a_format_error() {
    let framed = encode(b"...", 128);
    let truncated = framed[..10].to_vec();
    assert_eq!(decode(truncated), Err(Lz4Error::Format));
}

#[test]
fn truncated_payload_is_a_format_error() {
    let framed = encode(b"...", 128);
    let truncated = framed[..22].to_vec();
    assert_eq!(decode(truncated), Err(Lz4Error::Format));
}

#[test]
fn bad_magic_is_a_format_error() {
    let mut framed = encode(b"...", 128);
    framed[0] ^= 0xff;
    assert_eq!(decode(framed), Err(Lz4Error::Format));
}

#[test]
fn unknown_method_is_a_format_error() {
    let mut framed = encode(b"...", 128);
    framed[8] = 0x30;
    assert_eq!(decode(framed), Err(Lz4Error::Format));
}

#[test]
fn oversized_declared_length_is_a_format_error() {
    // A size-class-0 header (bound 1024) declaring 2000 original bytes
    // must be rejected before any buffer is trusted.
    let header = Lz4BlockHeader {
        compression_method: CompressionMethod::Raw,
        compression_level: lz4jb::CompressionLevel { level: 0 },
        compressed_len: 2000,
        decompressed_len: 2000,
        checksum: 0,
    };
    let mut framed = Vec::new();
    header.write(&mut framed);
    framed.extend_from_slice(&[0u8; 2000]);
    assert_eq!(decode(framed), Err(Lz4Error::Format));
}

#[test]
fn raw_length_mismatch_is_a_format_error() {
    let header = Lz4BlockHeader {
        compression_method: CompressionMethod::Raw,
        compression_level: lz4jb::CompressionLevel { level: 0 },
        compressed_len: 3,
        decompressed_len: 4,
        checksum: 0,
    };
    let mut framed = Vec::new();
    header.write(&mut framed);
    framed.extend_from_slice(b"abc");
    assert_eq!(decode(framed), Err(Lz4Error::Format));
}

#[test]
fn malformed_compressed_payload_is_a_backend_error() {
    let header = Lz4BlockHeader {
        compression_method: CompressionMethod::Lz4,
        compression_level: lz4jb::CompressionLevel { level: 0 },
        compressed_len: 2,
        decompressed_len: 100,
        checksum: 0,
    };
    let mut framed = Vec::new();
    header.write(&mut framed);
    framed.extend_from_slice(&[0xf0, 0x00]);
    assert_eq!(decode(framed), Err(Lz4Error::Backend));
}

#[test]
fn header_write_read_round_trip() {
    let header = Lz4BlockHeader {
        compression_method: CompressionMethod::Lz4,
        compression_level: lz4jb::CompressionLevel { level: 7 },
        compressed_len: 1234,
        decompressed_len: 4321,
        checksum: 0x0abcdef0,
    };
    let mut bytes = Vec::new();
    header.write(&mut bytes);
    assert_eq!(bytes.len(), 21);
    assert_eq!(Lz4BlockHeader::read(&bytes).unwrap(), header);
}

#[test]
fn maximum_compressed_buffer_len_bound_holds() {
    let ctx = Context::default();
    for len in [0usize, 1, 64, 65536] {
        let bound = ctx.get_maximum_compressed_buffer_len(len);
        assert_eq!(bound, 16 + 4 + len * 110 / 100);
        let compressed = ctx.compress(&incompressible(len));
        assert!(compressed.len() <= bound);
    }
}
