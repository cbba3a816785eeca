use lz4jb::CompressionLevel;
use lz4jb::Context;
use lz4jb::Lz4BlockOutput;

/// One framed block of the bytes "..." at block size 128: magic, a raw
/// token, payload and original lengths of 3, the default checksum, then
/// the three payload bytes.
const VALID_DATA: [u8; 24] = [
    76, 90, 52, 66, 108, 111, 99, 107, 16, 3, 0, 0, 0, 3, 0, 0, 0, 82, 228, 119, 6, 46, 46, 46,
];

#[test]
fn valid_default_block_size() {
    let default_block_size = Lz4BlockOutput::default_block_size();
    assert_eq!(CompressionLevel::from_block_size(default_block_size).is_ok(), true);
}

#[test]
fn write_empty() {
    let writer = Lz4BlockOutput::with_context(Vec::new(), Context::default(), 128).unwrap();
    let out = writer.finish();
    assert_eq!(out, []);
}

#[test]
fn write_basic() {
    let mut writer = Lz4BlockOutput::with_context(Vec::new(), Context::default(), 128).unwrap();
    writer.write_all("...".as_bytes()).unwrap();
    let out = writer.finish();
    assert_eq!(out, VALID_DATA);
}

#[test]
fn write_several_small_blocks() {
    let buf = ['.' as u8; 1024];
    let loops = 1024;
    let mut writer =
        Lz4BlockOutput::with_context(Vec::new(), Context::default(), buf.len() * loops).unwrap();
    for _ in 0..loops {
        writer.write_all(&buf).unwrap();
    }
    let out = writer.finish();
    let needle = &VALID_DATA[..8];
    // count number of blocks
    assert_eq!(out.windows(needle.len()).filter(|window| *window == needle).count(), 1);
}

#[test]
fn write_several_big_blocks() {
    let buf = ['.' as u8; 128];
    let loops = 1234;
    let mut writer =
        Lz4BlockOutput::with_context(Vec::new(), Context::default(), buf.len()).unwrap();
    for _ in 0..loops {
        writer.write_all(&buf).unwrap();
    }
    let out = writer.finish();
    let needle = &VALID_DATA[..8];
    // count number of blocks
    assert_eq!(out.windows(needle.len()).filter(|window| *window == needle).count(), loops);
}

#[test]
fn flush_basic() {
    let mut writer = Lz4BlockOutput::with_context(Vec::new(), Context::default(), 128).unwrap();
    writer.write_all("...".as_bytes()).unwrap();
    writer.flush().unwrap();
    writer.write_all("...".as_bytes()).unwrap();
    let out = writer.finish();
    let mut expected = VALID_DATA.to_vec();
    expected.extend_from_slice(&VALID_DATA[..]);
    assert_eq!(out, expected);
}
