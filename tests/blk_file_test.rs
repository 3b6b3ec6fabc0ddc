use block_cache::{next_record, BlockRecord, RecordError};

fn record(magic: [u8; 4], payload: &[u8]) -> Vec<u8> {
    let mut out = magic.to_vec();
    out.extend_from_slice(&(payload.len() as u32).to_le_bytes());
    out.extend_from_slice(payload);
    out
}

const MAGIC: [u8; 4] = [0xf9, 0xbe, 0xb4, 0xd9];

#[test]
fn reads_consecutive_records() {
    let mut file = record(MAGIC, &[1, 2, 3]);
    file.extend(record(MAGIC, &[9; 300]));
    assert_eq!(next_record(&file, 0), Ok(BlockRecord { start: 8, len: 3 }));
    assert_eq!(next_record(&file, 11), Ok(BlockRecord { start: 19, len: 300 }));
}

#[test]
fn length_is_little_endian() {
    let mut file = vec![0xf9, 0xbe, 0xb4, 0xd9, 0x01, 0x02, 0x00, 0x00];
    file.extend(vec![0u8; 0x0201]);
    assert_eq!(next_record(&file, 0), Ok(BlockRecord { start: 8, len: 513 }));
}

#[test]
fn empty_record_skips_magic_check() {
    let file = vec![0u8; 16];
    assert_eq!(next_record(&file, 0), Ok(BlockRecord { start: 8, len: 0 }));
    assert_eq!(next_record(&file, 8), Ok(BlockRecord { start: 16, len: 0 }));
}

#[test]
fn wrong_magic_is_refused() {
    let file = record([0x0b, 0x11, 0x09, 0x07], &[1, 2]);
    assert_eq!(next_record(&file, 0), Err(RecordError::BadMagic));
}

#[test]
fn truncated_records_are_refused() {
    let file = record(MAGIC, &[1, 2, 3]);
    assert_eq!(next_record(&file[..7], 0), Err(RecordError::Truncated));
    assert_eq!(next_record(&file[..10], 0), Err(RecordError::Truncated));
    assert_eq!(next_record(&file, 4), Err(RecordError::Truncated));
}
