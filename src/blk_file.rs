use vstd::prelude::*;

verus! {

// Layout of a block file: records, each made of the network's four magic
// bytes, the payload length as a little-endian `u32`, then the payload. A
// record whose length is zero is padding: its magic bytes are not checked.

/// The magic bytes of the main network.
pub const MAGIC: [u8; 4] = [0xf9, 0xbe, 0xb4, 0xd9];

/// The size of a record's header: magic bytes and payload length.
pub const HEADER_LEN: usize = 8;

/// The `u32` stored little-endian in `b[i..i + 4]`.
pub open spec fn le_u32_at(b: Seq<u8>, i: int) -> int {
    b[i] + 256 * b[i + 1] + 65536 * b[i + 2] + 16777216 * b[i + 3]
}

/// `b[i..i + 4]` holds the magic bytes.
pub open spec fn magic_at(b: Seq<u8>, i: int) -> bool {
    b[i] == 0xf9u8 && b[i + 1] == 0xbeu8 && b[i + 2] == 0xb4u8 && b[i + 3] == 0xd9u8
}

/// Where the payload of one record lies in the file.
#[derive(Clone, Copy, Debug, PartialEq, Eq)]
pub struct BlockRecord {
    pub start: usize,
    pub len: usize,
}

#[derive(Clone, Copy, Debug, PartialEq, Eq)]
pub enum RecordError {
    /// The file ends inside the record.
    Truncated,
    /// A record with a payload does not start with the magic bytes.
    BadMagic,
}

/// Reads the record that starts at offset `i` of `file_bytes`.
pub fn next_record(file_bytes: &[u8], i: usize) -> (r: Result<BlockRecord, RecordError>)
    requires
        i < file_bytes@.len(),
    ensures
        ({
            let b = file_bytes@;
            let fits_header = i + 8 <= b.len();
            let fits = fits_header && i + 8 + le_u32_at(b, i + 4int) <= b.len();
            &&& (r == Err::<BlockRecord, RecordError>(RecordError::Truncated)) <==> !fits
            &&& (r == Err::<BlockRecord, RecordError>(RecordError::BadMagic)) <==> (fits && le_u32_at(b, i + 4int) > 0
                && !magic_at(b, i as int))
            &&& r is Ok ==> r->Ok_0.start == i + 8 && r->Ok_0.len == le_u32_at(b, i + 4int)
        }),
{
    if file_bytes.len() - i < HEADER_LEN {
        return Err(RecordError::Truncated);
    }
    let len: u64 = file_bytes[i + 4] as u64 + 256 * (file_bytes[i + 5] as u64) + 65536 * (
    file_bytes[i + 6] as u64) + 16777216 * (file_bytes[i + 7] as u64);
    let start = i + HEADER_LEN;
    if len > (file_bytes.len() - start) as u64 {
        return Err(RecordError::Truncated);
    }
    let len = len as usize;
    if len > 0 && !(file_bytes[i] == MAGIC[0] && file_bytes[i + 1] == MAGIC[1] && file_bytes[i + 2]
        == MAGIC[2] && file_bytes[i + 3] == MAGIC[3]) {
        return Err(RecordError::BadMagic);
    }
    Ok(BlockRecord { start, len })
}

} // verus!
