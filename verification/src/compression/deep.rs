//! Compression of the two sections of a deep block: the table of sample
//! counts and the sample stream.
//!
//! The table is compressed as the little-endian bytes of its entries, four
//! for each entry.

use crate::compression::compress_section;
use crate::compression::Compression;
use crate::compression::decompress_section;
use crate::compression::lemma_section_restores;
use crate::compression::method_restores;
use crate::compression::section_compressed;
use crate::compression::section_decompressed;
use crate::error::Error;
use crate::le::le_byte;
use crate::le::lemma_u32_le_roundtrip;
use crate::le::u32_from_le;
use crate::le::u32_from_le_bytes;
use crate::le::u32_to_le_bytes;
use vstd::prelude::*;

verus! {

/// The 32-bit pattern of a signed entry: its two's complement.
pub open spec fn i32_bits(entry: i32) -> int {
    if entry >= 0 {
        entry as int
    } else {
        entry + 0x1_0000_0000
    }
}

/// The signed entry that a 32-bit pattern stands for.
pub open spec fn i32_of_bits(bits: int) -> i32 {
    if bits < 0x8000_0000 {
        bits as i32
    } else {
        (bits - 0x1_0000_0000) as i32
    }
}

/// The bytes of a table: four little-endian bytes for each entry.
pub open spec fn table_bytes(table: Seq<i32>) -> Seq<u8> {
    Seq::new(4 * table.len(), |k: int| le_byte(i32_bits(table[k / 4]), k % 4))
}

/// The table that the given bytes hold: one entry for every four bytes.
pub open spec fn table_of_bytes(bytes: Seq<u8>) -> Seq<i32> {
    Seq::new(
        bytes.len() / 4,
        |i: int|
            i32_of_bits(
                u32_from_le(bytes[4 * i], bytes[4 * i + 1], bytes[4 * i + 2], bytes[4 * i + 3]),
            ),
    )
}

/// The four bytes of an entry give the entry back.
pub proof fn lemma_entry_of_bytes(entry: i32)
    ensures
        i32_of_bits(
            u32_from_le(
                le_byte(i32_bits(entry), 0),
                le_byte(i32_bits(entry), 1),
                le_byte(i32_bits(entry), 2),
                le_byte(i32_bits(entry), 3),
            ),
        ) == entry,
{
    lemma_u32_le_roundtrip(i32_bits(entry));
}

/// Reading the bytes of a table gives the table back.
pub proof fn lemma_table_of_table_bytes(table: Seq<i32>)
    ensures
        table_of_bytes(table_bytes(table)) == table,
{
    let bytes = table_bytes(table);
    assert(bytes.len() / 4 == table.len());
    assert forall|i: int| 0 <= i < table.len() implies #[trigger] table_of_bytes(bytes)[i]
        == table[i] by {
        let bits = i32_bits(table[i]);
        assert((4 * i) / 4 == i && (4 * i) % 4 == 0);
        assert((4 * i + 1) / 4 == i && (4 * i + 1) % 4 == 1);
        assert((4 * i + 2) / 4 == i && (4 * i + 2) % 4 == 2);
        assert((4 * i + 3) / 4 == i && (4 * i + 3) % 4 == 3);
        assert(bytes[4 * i] == le_byte(bits, 0));
        assert(bytes[4 * i + 1] == le_byte(bits, 1));
        assert(bytes[4 * i + 2] == le_byte(bits, 2));
        assert(bytes[4 * i + 3] == le_byte(bits, 3));
        lemma_entry_of_bytes(table[i]);
    }
    assert(table_of_bytes(bytes) =~= table);
}

/// What a compressed table section stands for: a table of `entries` entries,
/// or the reason why it stands for none.
pub open spec fn sample_table_decompressed(
    compression: Compression,
    compressed: Seq<u8>,
    entries: int,
    pedantic: bool,
) -> Result<Seq<i32>, Error> {
    if !compression.is_deep() {
        Err(Error::Unsupported)
    } else if 4 * entries > usize::MAX {
        Err(Error::Malformed)
    } else {
        match section_decompressed(compression, compressed, 4 * entries, pedantic) {
            Some(bytes) => Ok(table_of_bytes(bytes)),
            None => Err(Error::Malformed),
        }
    }
}

/// What a compressed data section stands for: a sample stream of `expected`
/// bytes, or the reason why it stands for none. A section that is stored as
/// it is and has another length fails with `SizeMismatch`.
pub open spec fn sample_data_decompressed(
    compression: Compression,
    compressed: Seq<u8>,
    expected: int,
    pedantic: bool,
) -> Result<Seq<u8>, Error> {
    if !compression.is_deep() {
        Err(Error::Unsupported)
    } else {
        match section_decompressed(compression, compressed, expected, pedantic) {
            Some(bytes) => Ok(bytes),
            None => Err(
                if compression == Compression::Uncompressed {
                    Error::SizeMismatch
                } else {
                    Error::Malformed
                },
            ),
        }
    }
}

/// The bytes of a table, or `None` where they are too many for a `usize`.
fn table_to_bytes(table: &[i32]) -> (bytes: Option<Vec<u8>>)
    ensures
        bytes is Some <==> 4 * table@.len() <= usize::MAX,
        bytes is Some ==> bytes->0@ == table_bytes(table@),
{
    let len = table.len();
    if len > usize::MAX / 4 {
        return None;
    }
    let mut bytes: Vec<u8> = Vec::with_capacity(4 * len);
    let mut i: usize = 0;
    while i < len
        invariant
            i <= len,
            len == table@.len(),
            4 * len <= usize::MAX,
            bytes@.len() == 4 * i,
            forall|k: int| 0 <= k < 4 * i ==> #[trigger] bytes@[k] == table_bytes(table@)[k],
        decreases len - i,
    {
        let entry = table[i];
        let bits: u32 = if entry >= 0 {
            entry as u32
        } else {
            (entry as i64 + 0x1_0000_0000) as u32
        };
        let le = u32_to_le_bytes(bits);
        bytes.push(le[0]);
        bytes.push(le[1]);
        bytes.push(le[2]);
        bytes.push(le[3]);
        i = i + 1;
    }
    assert(bytes@ =~= table_bytes(table@));
    Some(bytes)
}

/// The table that the given bytes hold.
fn table_from_bytes(bytes: &[u8]) -> (table: Vec<i32>)
    ensures
        table@ == table_of_bytes(bytes@),
{
    let len = bytes.len();
    let entries = len / 4;
    let mut table: Vec<i32> = Vec::with_capacity(entries);
    let mut i: usize = 0;
    while i < entries
        invariant
            i <= entries,
            len == bytes@.len(),
            entries == len / 4,
            table@.len() == i,
            forall|k: int| 0 <= k < i ==> #[trigger] table@[k] == table_of_bytes(bytes@)[k],
        decreases entries - i,
    {
        let bits = u32_from_le_bytes(
            bytes[4 * i],
            bytes[4 * i + 1],
            bytes[4 * i + 2],
            bytes[4 * i + 3],
        );
        let entry: i32 = if bits < 0x8000_0000 {
            bits as i32
        } else {
            (bits as i64 - 0x1_0000_0000) as i32
        };
        table.push(entry);
        i = i + 1;
    }
    assert(table@ =~= table_of_bytes(bytes@));
    table
}

/// A table comes back from what is written for it, in either mode, as far
/// as the method can be relied on.
pub proof fn lemma_sample_table_restores(compression: Compression, table: Seq<i32>, pedantic: bool)
    requires
        compression.is_deep(),
        4 * table.len() <= usize::MAX,
        method_restores(compression, table_bytes(table)),
    ensures
        sample_table_decompressed(
            compression,
            section_compressed(compression, table_bytes(table)),
            table.len() as int,
            pedantic,
        ) == Ok::<Seq<i32>, Error>(table),
{
    lemma_section_restores(compression, table_bytes(table), pedantic);
    lemma_table_of_table_bytes(table);
}

/// A sample stream comes back from what is written for it, in either mode,
/// as far as the method can be relied on.
pub proof fn lemma_sample_data_restores(compression: Compression, data: Seq<u8>, pedantic: bool)
    requires
        compression.is_deep(),
        method_restores(compression, data),
    ensures
        sample_data_decompressed(
            compression,
            section_compressed(compression, data),
            data.len() as int,
            pedantic,
        ) == Ok::<Seq<u8>, Error>(data),
{
    lemma_section_restores(compression, data, pedantic);
}

/// Compresses the table of sample counts as it stands on disk.
///
/// A method that cannot hold deep data is refused as unsupported, and a
/// table whose bytes are too many for a `usize` with `Overflow`.
pub fn compress_sample_table(
    compression: Compression,
    table: &[i32],
) -> (result: Result<Vec<u8>, Error>)
    ensures
        result is Ok <==> compression.is_deep() && 4 * table@.len() <= usize::MAX,
        result is Err ==> result->Err_0 == (if compression.is_deep() {
            Error::Overflow
        } else {
            Error::Unsupported
        }),
        result is Ok ==> result->Ok_0@ == section_compressed(compression, table_bytes(table@)),
{
    if !compression.supports_deep_data() {
        return Err(Error::Unsupported);
    }
    let bytes = match table_to_bytes(table) {
        Some(bytes) => bytes,
        None => {
            return Err(Error::Overflow);
        },
    };
    compress_section(compression, bytes.as_slice())
}

/// Decompresses the table of sample counts of a block of the given extents:
/// one entry per pixel.
pub fn decompress_sample_table(
    compression: Compression,
    compressed: &[u8],
    width: usize,
    height: usize,
    pedantic: bool,
) -> (result: Result<Vec<i32>, Error>)
    ensures
        match sample_table_decompressed(compression, compressed@, width * height, pedantic) {
            Ok(table) => result is Ok && result->Ok_0@ == table,
            Err(error) => result == Err::<Vec<i32>, Error>(error),
        },
{
    if !compression.supports_deep_data() {
        return Err(Error::Unsupported);
    }
    let expected = match width.checked_mul(height) {
        Some(entries) => if entries > usize::MAX / 4 {
            return Err(Error::Malformed);
        } else {
            4 * entries
        },
        None => {
            assert(4 * (width * height) > usize::MAX);
            return Err(Error::Malformed);
        },
    };
    match decompress_section(compression, compressed, expected, pedantic) {
        Ok(bytes) => Ok(table_from_bytes(bytes.as_slice())),
        Err(error) => Err(error),
    }
}

/// Compresses the sample stream of a block. A method that cannot hold deep
/// data is refused as unsupported.
pub fn compress_sample_data(
    compression: Compression,
    data: &[u8],
) -> (result: Result<Vec<u8>, Error>)
    ensures
        result is Ok <==> compression.is_deep(),
        result is Err ==> result->Err_0 == Error::Unsupported,
        result is Ok ==> result->Ok_0@ == section_compressed(compression, data@),
{
    compress_section(compression, data)
}

/// Decompresses the sample stream of a block: `expected` bytes.
pub fn decompress_sample_data(
    compression: Compression,
    compressed: &[u8],
    expected: usize,
    pedantic: bool,
) -> (result: Result<Vec<u8>, Error>)
    ensures
        match sample_data_decompressed(compression, compressed@, expected as int, pedantic) {
            Ok(data) => result is Ok && result->Ok_0@ == data,
            Err(error) => result == Err::<Vec<u8>, Error>(error),
        },
{
    match decompress_section(compression, compressed, expected, pedantic) {
        Ok(data) => Ok(data),
        Err(error) => match (compression, error) {
            (Compression::Uncompressed, Error::Malformed) => Err(Error::SizeMismatch),
            (_, error) => Err(error),
        },
    }
}

} // verus!
