//! Packing and unpacking of the sample stream, and the codec of whole blocks.

use crate::block::chunk::CompressedDeepScanLineBlock;
use crate::block::chunk::CompressedDeepTileBlock;
use crate::block::chunk::TileCoordinates;
use crate::block::stream::channels_hold;
use crate::block::stream::lemma_stream_prefix_len;
use crate::block::stream::lemma_unpacked_stream;
use crate::block::stream::packed_stream;
use crate::block::stream::record;
use crate::block::stream::record_prefix;
use crate::block::stream::stream_prefix;
use crate::block::stream::types_of;
use crate::block::stream::unpacked;
use crate::block::stream::value_at;
use crate::block::stream::value_bytes;
use crate::block::stream::value_position;
use crate::block::table::disk_entries_fit;
use crate::block::table::disk_table_of;
use crate::block::table::disk_table_to_pixel_offsets;
use crate::block::table::disk_table_valid;
use crate::block::table::lemma_disk_table_roundtrip;
use crate::block::table::lemma_offsets_monotonic;
use crate::block::table::lemma_pixel_offsets_roundtrip;
use crate::block::table::pixel_offsets_of;
use crate::block::table::pixel_offsets_to_disk_table;
use crate::block::table::samples_before;
use crate::block::table::validate_pixel_offsets;
use crate::block::table::validate_sample_table;
use crate::compression::Compression;
use crate::compression::deep::compress_sample_data;
use crate::compression::deep::compress_sample_table;
use crate::compression::deep::decompress_sample_data;
use crate::compression::deep::decompress_sample_table;
use crate::compression::deep::lemma_sample_data_restores;
use crate::compression::deep::lemma_sample_table_restores;
use crate::compression::deep::sample_data_decompressed;
use crate::compression::deep::sample_table_decompressed;
use crate::compression::deep::table_bytes;
use crate::compression::method_restores;
use crate::compression::section_compressed;
use crate::error::Error;
use crate::image::deep::ChannelValues;
use crate::image::deep::DeepChannelData;
use crate::image::deep::DeepSamples;
use crate::image::deep::DeepSamplesView;
use crate::image::deep::zeroed_channels;
use crate::le::u16_from_le_bytes;
use crate::le::u16_to_le_bytes;
use crate::le::u32_from_le_bytes;
use crate::le::u32_to_le_bytes;
use crate::meta::attribute::ChannelList;
use crate::meta::attribute::lemma_record_offset_bounds;
use crate::meta::attribute::lemma_record_offset_monotonic;
use crate::meta::attribute::record_offset;
use crate::meta::attribute::record_width;
use crate::meta::attribute::SampleType;
use vstd::arithmetic::mul::lemma_mul_inequality;
use vstd::prelude::*;

verus! {

/// The number of bytes of the sample stream of a block with the given
/// channels: one record per sample.
pub open spec fn stream_len(samples: DeepSamplesView, types: Seq<SampleType>) -> int {
    samples.total_samples() * record_width(types)
}

/// The channels of a sound block hold one value per sample, and their
/// half-precision values are 16-bit patterns.
pub proof fn lemma_block_channels_hold(samples: &DeepSamples)
    requires
        samples@.channels_complete(),
    ensures
        channels_hold(samples@.channels, samples@.total_samples()),
{
    let channels = samples@.channels;
    assert forall|c: int| 0 <= c < channels.len() implies {
        &&& (#[trigger] channels[c]).bits.len() == samples@.total_samples()
        &&& channels[c].sample_type == SampleType::F16 ==> forall|g: int|
            0 <= g < samples@.total_samples() ==> #[trigger] channels[c].bits[g] < 0x1_0000
    } by {
        assert(channels[c] == samples.channels@[c]@);
    }
}

/// Unpacking what was packed gives every channel back bit for bit: every
/// half-precision pattern, NaNs, subnormals, infinities and signed zeros
/// included, every single-precision pattern and every integer.
pub proof fn lemma_unpack_of_pack(samples: DeepSamples, types: Seq<SampleType>)
    requires
        samples@.consistent_with(types),
    ensures
        unpacked(packed_stream(samples@), types, samples@.total_samples()) == samples@.channels,
{
    lemma_block_channels_hold(&samples);
    assert(types_of(samples@.channels) =~= types);
    let total = samples@.total_samples();
    assert(0 <= total);
    lemma_unpacked_stream(samples@.channels, total);
}

/// The length of a stream of `total` records of `record_width` bytes each, or
/// `None` where it does not fit a `usize`. A width of `None` stands for a
/// width that fits no `usize` itself.
pub fn stream_length(total: usize, record_width: Option<usize>) -> (len: Option<usize>)
    ensures
        match record_width {
            Some(width) => len == (if total * width <= usize::MAX {
                Some((total * width) as usize)
            } else {
                None
            }),
            None => len == (if total == 0 {
                Some(0usize)
            } else {
                None
            }),
        },
{
    match record_width {
        Some(width) => total.checked_mul(width),
        None => if total == 0 {
            Some(0)
        } else {
            None
        },
    }
}

/// The length of a stream of `total` samples of the given channels, or `None`
/// where it does not fit a `usize`.
fn expected_stream_len(total: usize, channels: &ChannelList) -> (len: Option<usize>)
    ensures
        match len {
            Some(len) => len == total * record_width(channels.types()),
            None => total * record_width(channels.types()) > usize::MAX,
        },
{
    let len = stream_length(total, channels.bytes_per_sample());
    proof {
        let width = record_width(channels.types());
        if total == 0 {
            assert(0 * width == 0);
        } else if width > usize::MAX {
            lemma_mul_inequality(1, total as int, width);
        }
    }
    len
}

/// Appends the record of sample `g` to `data`.
fn pack_sample(samples: &DeepSamples, g: usize, data: &mut Vec<u8>)
    requires
        samples@.channels_complete(),
        g < samples@.total_samples(),
    ensures
        final(data)@ == old(data)@ + record(samples@.channels, g as int),
{
    let ghost channels = samples@.channels;
    let mut c: usize = 0;
    while c < samples.channels.len()
        invariant
            c <= samples.channels.len(),
            channels == samples@.channels,
            samples@.channels_complete(),
            g < samples@.total_samples(),
            data@ == old(data)@ + record_prefix(channels, g as int, c as int),
        decreases samples.channels.len() - c,
    {
        let ghost before = data@;
        let ghost held = channels[c as int];
        assert(held == samples.channels@[c as int]@);
        assert(held.bits.len() == samples@.total_samples());
        match &samples.channels[c] {
            DeepChannelData::F16(values) => {
                let bytes = u16_to_le_bytes(values[g]);
                data.push(bytes[0]);
                data.push(bytes[1]);
            },
            DeepChannelData::F32(values) => {
                let bytes = u32_to_le_bytes(values[g]);
                data.push(bytes[0]);
                data.push(bytes[1]);
                data.push(bytes[2]);
                data.push(bytes[3]);
            },
            DeepChannelData::U32(values) => {
                let bytes = u32_to_le_bytes(values[g]);
                data.push(bytes[0]);
                data.push(bytes[1]);
                data.push(bytes[2]);
                data.push(bytes[3]);
            },
        }
        assert(data@ =~= before + value_bytes(held.sample_type, held.bits[g as int]));
        c = c + 1;
    }
}

/// Writes the sample stream of a block: pixel after pixel, sample after
/// sample, and for each sample the value of every channel in little-endian
/// bytes.
///
/// A block that is not sound, or that does not hold exactly the channels of
/// the list, is refused with `InternalConsistency`; a stream too long for a
/// `usize` with `Overflow`.
pub fn pack_deep_channels(
    samples: &DeepSamples,
    channels: &ChannelList,
) -> (result: Result<Vec<u8>, Error>)
    ensures
        result is Ok <==> samples@.consistent_with(channels.types()) && stream_len(
            samples@,
            channels.types(),
        ) <= usize::MAX,
        result is Ok ==> result->Ok_0@ == packed_stream(samples@),
        result is Ok ==> result->Ok_0@.len() == stream_len(samples@, channels.types()),
        result is Err ==> result->Err_0 == (if samples@.consistent_with(channels.types()) {
            Error::Overflow
        } else {
            Error::InternalConsistency
        }),
{
    match samples.validate_channels(channels) {
        Ok(()) => {},
        Err(error) => {
            return Err(error);
        },
    }
    let total = samples.total_samples();
    let expected = match expected_stream_len(total, channels) {
        Some(expected) => expected,
        None => {
            return Err(Error::Overflow);
        },
    };
    let mut data: Vec<u8> = Vec::with_capacity(expected);
    let pixel_count = samples.sample_offsets.len() - 1;
    let mut pixel_idx: usize = 0;
    while pixel_idx < pixel_count
        invariant
            pixel_idx <= pixel_count,
            pixel_count == samples@.offsets.len() - 1,
            samples@.valid(),
            total == samples@.total_samples(),
            data@ == stream_prefix(samples@.channels, samples@.offsets[pixel_idx as int] as int),
        decreases pixel_count - pixel_idx,
    {
        let (start, end) = samples.sample_range(pixel_idx);
        proof {
            lemma_offsets_monotonic(samples@.offsets, pixel_idx as int, pixel_idx as int + 1);
            lemma_offsets_monotonic(samples@.offsets, pixel_idx as int + 1, pixel_count as int);
        }
        let mut src_idx: usize = start;
        while src_idx < end
            invariant
                start <= src_idx <= end <= total,
                samples@.valid(),
                total == samples@.total_samples(),
                data@ == stream_prefix(samples@.channels, src_idx as int),
            decreases end - src_idx,
        {
            pack_sample(samples, src_idx, &mut data);
            src_idx = src_idx + 1;
        }
        pixel_idx = pixel_idx + 1;
    }
    proof {
        assert(types_of(samples@.channels) =~= channels.types());
        lemma_stream_prefix_len(samples@.channels, total as int);
    }
    Ok(data)
}

/// Channel `c` after the value of sample `g` was read into it from the record
/// that starts at `cursor`.
pub open spec fn channel_with_sample(
    channel: ChannelValues,
    types: Seq<SampleType>,
    c: int,
    g: int,
    data: Seq<u8>,
    cursor: int,
) -> ChannelValues {
    ChannelValues {
        sample_type: channel.sample_type,
        bits: channel.bits.update(
            g,
            value_at(channel.sample_type, data, cursor + record_offset(types, c)),
        ),
    }
}

/// Reads the record that starts at `cursor` into sample `g` of every channel,
/// and returns the position after the record.
fn unpack_sample(data: &[u8], cursor: usize, samples: &mut DeepSamples, g: usize) -> (next: usize)
    requires
        cursor + record_width(types_of(old(samples)@.channels)) <= data@.len(),
        forall|c: int|
            0 <= c < old(samples)@.channels.len() ==> g < (#[trigger] old(
                samples,
            )@.channels[c]).bits.len(),
    ensures
        next == cursor + record_width(types_of(old(samples)@.channels)),
        final(samples)@.width == old(samples)@.width,
        final(samples)@.height == old(samples)@.height,
        final(samples)@.offsets == old(samples)@.offsets,
        final(samples)@.channels.len() == old(samples)@.channels.len(),
        forall|c: int|
            0 <= c < old(samples)@.channels.len() ==> #[trigger] final(samples)@.channels[c]
                == channel_with_sample(
                old(samples)@.channels[c],
                types_of(old(samples)@.channels),
                c,
                g as int,
                data@,
                cursor as int,
            ),
{
    let ghost before = samples@;
    let ghost types = types_of(before.channels);
    let mut at: usize = cursor;
    let mut c: usize = 0;
    while c < samples.channels.len()
        invariant
            c <= samples.channels.len(),
            types == types_of(before.channels),
            cursor + record_width(types) <= data@.len(),
            at == cursor + record_offset(types, c as int),
            samples@.width == before.width,
            samples@.height == before.height,
            samples@.offsets == before.offsets,
            samples@.channels.len() == before.channels.len(),
            forall|d: int|
                0 <= d < before.channels.len() ==> g < (#[trigger] before.channels[d]).bits.len(),
            forall|d: int|
                0 <= d < c ==> #[trigger] samples@.channels[d] == channel_with_sample(
                    before.channels[d],
                    types,
                    d,
                    g as int,
                    data@,
                    cursor as int,
                ),
            forall|d: int|
                c <= d < before.channels.len() ==> #[trigger] samples@.channels[d]
                    == before.channels[d],
        decreases samples.channels.len() - c,
    {
        let ghost held = samples@.channels;
        let ghost channel = before.channels[c as int];
        proof {
            assert(held[c as int] == channel);
            assert(held[c as int] == samples.channels@[c as int]@);
            assert(g < channel.bits.len());
            assert(types[c as int] == channel.sample_type);
            lemma_record_offset_monotonic(types, c as int, types.len() as int);
        }
        match &mut samples.channels[c] {
            DeepChannelData::F16(values) => {
                let value = u16_from_le_bytes(data[at], data[at + 1]);
                values[g] = value;
                at = at + 2;
            },
            DeepChannelData::F32(values) => {
                let value = u32_from_le_bytes(data[at], data[at + 1], data[at + 2], data[at + 3]);
                values[g] = value;
                at = at + 4;
            },
            DeepChannelData::U32(values) => {
                let value = u32_from_le_bytes(data[at], data[at + 1], data[at + 2], data[at + 3]);
                values[g] = value;
                at = at + 4;
            },
        }
        proof {
            let now = samples@.channels;
            let read = channel_with_sample(
                channel,
                types,
                c as int,
                g as int,
                data@,
                cursor as int,
            );
            assert(now[c as int] == samples.channels@[c as int]@);
            assert(now[c as int].bits =~= read.bits);
            assert forall|d: int| 0 <= d < before.channels.len() && d != c implies now[d]
                == held[d] by {
                assert(now[d] == samples.channels@[d]@);
            }
        }
        c = c + 1;
    }
    at
}

/// The channels are those of `types`, each holds `total` values, and the
/// first `done` values of each are the ones that the stream `data` holds for
/// them.
#[verifier::opaque]
pub open spec fn filled(
    channels: Seq<ChannelValues>,
    types: Seq<SampleType>,
    data: Seq<u8>,
    total: int,
    done: int,
) -> bool {
    &&& types_of(channels) == types
    &&& forall|c: int| 0 <= c < channels.len() ==> (#[trigger] channels[c]).bits.len() == total
    &&& forall|c: int, g: int|
        0 <= c < channels.len() && 0 <= g < done ==> #[trigger] channels[c].bits[g] == value_at(
            types[c],
            data,
            value_position(types, g, c),
        )
}

/// Freshly allocated channels are filled up to no sample at all.
proof fn lemma_filled_none(
    channels: Seq<ChannelValues>,
    types: Seq<SampleType>,
    data: Seq<u8>,
    total: int,
)
    requires
        channels.len() == types.len(),
        forall|c: int|
            0 <= c < channels.len() ==> (#[trigger] channels[c]).sample_type == types[c]
                && channels[c].bits.len() == total,
    ensures
        filled(channels, types, data, total, 0),
{
    reveal(filled);
    assert(types_of(channels) =~= types);
}

/// Reading the record of sample `g` into channels that are filled up to `g`
/// fills them up to `g + 1`, and moves the cursor by one record.
proof fn lemma_filled_one_more(
    held: Seq<ChannelValues>,
    now: Seq<ChannelValues>,
    types: Seq<SampleType>,
    data: Seq<u8>,
    total: int,
    g: int,
)
    requires
        0 <= g < total,
        filled(held, types, data, total, g),
        now.len() == held.len(),
        forall|c: int|
            0 <= c < held.len() ==> #[trigger] now[c] == channel_with_sample(
                held[c],
                types,
                c,
                g,
                data,
                g * record_width(types),
            ),
    ensures
        filled(now, types, data, total, g + 1),
{
    reveal(filled);
    assert(types_of(now) =~= types) by {
        assert forall|c: int| 0 <= c < now.len() implies types_of(now)[c] == types[c] by {
            assert(types_of(held)[c] == held[c].sample_type);
        }
    }
    assert forall|c: int| 0 <= c < now.len() implies (#[trigger] now[c]).bits.len() == total by {
        assert(held[c].bits.len() == total);
    }
    assert forall|c: int, g2: int|
        0 <= c < now.len() && 0 <= g2 < g + 1 implies #[trigger] now[c].bits[g2] == value_at(
        types[c],
        data,
        value_position(types, g2, c),
    ) by {
        assert(types_of(held)[c] == held[c].sample_type);
        assert(held[c].bits.len() == total);
        if g2 < g {
            assert(held[c].bits[g2] == value_at(types[c], data, value_position(types, g2, c)));
        }
    }
}

/// Channels that are filled up to their last sample are the channels that
/// the stream holds.
proof fn lemma_filled_all(
    channels: Seq<ChannelValues>,
    types: Seq<SampleType>,
    data: Seq<u8>,
    total: int,
)
    requires
        0 <= total,
        filled(channels, types, data, total, total),
    ensures
        channels == unpacked(data, types, total),
        forall|c: int| 0 <= c < channels.len() ==> (#[trigger] channels[c]).bits.len() == total,
{
    reveal(filled);
    let read = unpacked(data, types, total);
    assert forall|c: int| 0 <= c < channels.len() implies #[trigger] channels[c] == read[c] by {
        assert(types_of(channels)[c] == channels[c].sample_type);
        assert(channels[c].bits.len() == total);
        assert(channels[c].bits =~= read[c].bits);
    }
    assert(channels =~= read);
}

/// What filled channels give the reader of the next record: room in every
/// channel, and their types.
proof fn lemma_filled_has_room(
    channels: Seq<ChannelValues>,
    types: Seq<SampleType>,
    data: Seq<u8>,
    total: int,
    done: int,
)
    requires
        filled(channels, types, data, total, done),
    ensures
        types_of(channels) == types,
        forall|c: int| 0 <= c < channels.len() ==> (#[trigger] channels[c]).bits.len() == total,
{
    reveal(filled);
}

/// The record after sample `g` starts one record further, and still within a
/// stream of `total` records.
proof fn lemma_next_record(g: int, total: int, width: int)
    requires
        0 <= g < total,
        0 <= width,
    ensures
        (g + 1) * width == g * width + width,
        (g + 1) * width <= total * width,
        0 <= g * width,
{
    assert((g + 1) * width == g * width + width) by (nonlinear_arith);
    assert((g + 1) * width <= total * width) by (nonlinear_arith)
        requires
            g + 1 <= total,
            0 <= width,
    ;
    assert(0 <= g * width) by (nonlinear_arith)
        requires
            0 <= g,
            0 <= width,
    ;
}

/// Reads the sample stream of a block into its channels.
///
/// The block must hold its offset table; its channels are replaced by the
/// channels of the list, filled from the stream. A block without a complete
/// offset table is refused with `InternalConsistency`. Where one record per
/// sample makes more bytes than a `usize` can count, the block is refused with
/// `Overflow`. The stream must hold exactly one record per sample, else it is
/// refused with `SizeMismatch`. A block that is refused is left as it was, and
/// no byte of the stream is read.
pub fn unpack_deep_channels(
    data: &[u8],
    samples: &mut DeepSamples,
    channels: &ChannelList,
) -> (result: Result<(), Error>)
    ensures
        result is Ok <==> old(samples)@.offsets_valid() && data@.len() == stream_len(
            old(samples)@,
            channels.types(),
        ),
        result is Ok ==> final(samples)@ == (DeepSamplesView {
            channels: unpacked(data@, channels.types(), old(samples)@.total_samples()),
            ..old(samples)@
        }),
        result is Ok ==> final(samples)@.valid() && final(samples)@.has_channels(channels.types()),
        result is Err ==> *final(samples) == *old(samples),
        result is Err ==> result->Err_0 == (if !old(samples)@.offsets_valid() {
            Error::InternalConsistency
        } else if stream_len(old(samples)@, channels.types()) > usize::MAX {
            Error::Overflow
        } else {
            Error::SizeMismatch
        }),
{
    if !validate_pixel_offsets(&samples.sample_offsets, samples.width, samples.height) {
        return Err(Error::InternalConsistency);
    }
    let total = samples.total_samples();
    let len = data.len();
    let expected = match expected_stream_len(total, channels) {
        Some(expected) => expected,
        None => {
            return Err(Error::Overflow);
        },
    };
    if len != expected {
        return Err(Error::SizeMismatch);
    }
    samples.allocate_channels(channels);

    let ghost types = channels.types();
    let ghost width = record_width(types);
    let ghost offsets = samples@.offsets;
    proof {
        lemma_filled_none(samples@.channels, types, data@, total as int);
        lemma_record_offset_bounds(types, types.len() as int);
        assert(0 * width == 0);
    }
    let mut data_offset: usize = 0;
    let pixel_count = samples.sample_offsets.len() - 1;
    let mut pixel_idx: usize = 0;
    while pixel_idx < pixel_count
        invariant
            pixel_idx <= pixel_count,
            pixel_count == offsets.len() - 1,
            0 <= width == record_width(types),
            samples@.width == old(samples)@.width,
            samples@.height == old(samples)@.height,
            samples@.offsets == offsets,
            offsets == old(samples)@.offsets,
            samples@.offsets_valid(),
            total == samples@.total_samples(),
            data@.len() == total * width,
            data_offset == offsets[pixel_idx as int] * width,
            filled(samples@.channels, types, data@, total as int, offsets[pixel_idx as int] as int),
        decreases pixel_count - pixel_idx,
    {
        let (start, end) = samples.sample_range(pixel_idx);
        proof {
            lemma_offsets_monotonic(offsets, pixel_idx as int, pixel_idx as int + 1);
            lemma_offsets_monotonic(offsets, pixel_idx as int + 1, pixel_count as int);
        }
        let mut dest_idx: usize = start;
        while dest_idx < end
            invariant
                start <= dest_idx <= end <= total,
                0 <= width == record_width(types),
                samples@.width == old(samples)@.width,
                samples@.height == old(samples)@.height,
                samples@.offsets == offsets,
                data@.len() == total * width,
                data_offset == dest_idx * width,
                filled(samples@.channels, types, data@, total as int, dest_idx as int),
            decreases end - dest_idx,
        {
            let ghost held = samples@.channels;
            proof {
                lemma_next_record(dest_idx as int, total as int, width);
                lemma_filled_has_room(held, types, data@, total as int, dest_idx as int);
            }
            data_offset = unpack_sample(data, data_offset, samples, dest_idx);
            proof {
                lemma_filled_one_more(
                    held,
                    samples@.channels,
                    types,
                    data@,
                    total as int,
                    dest_idx as int,
                );
            }
            dest_idx = dest_idx + 1;
        }
        pixel_idx = pixel_idx + 1;
    }
    proof {
        assert(data_offset == data@.len());
        lemma_filled_all(samples@.channels, types, data@, total as int);
        assert(forall|c: int|
            0 <= c < types.len() ==> #[trigger] samples@.channels[c].sample_type == types[c]);
    }
    Ok(())
}

/// The most bytes of padding that a sample stream may carry in lenient mode.
pub const MAX_PADDING: usize = 7;

/// The sample stream within the decompressed data section, or `None` where
/// the section does not hold a stream of `expected` bytes.
///
/// The section must be the stream. In lenient mode it may carry up to seven
/// bytes more, all of them zero, which are dropped.
pub open spec fn accepted_stream(data: Seq<u8>, expected: int, pedantic: bool) -> Option<Seq<u8>> {
    if data.len() == expected {
        Some(data)
    } else if !pedantic && expected < data.len() <= expected + MAX_PADDING && (forall|i: int|
        expected <= i < data.len() ==> data[i] == 0) {
        Some(data.take(expected))
    } else {
        None
    }
}

/// The offsets of the block that a compressed table section stands for, or
/// the reason why it stands for none.
///
/// The section must decompress to an acceptable table that counts no more
/// than `i32::MAX` samples, else the block is malformed.
pub open spec fn decoded_offsets(
    table_section: Seq<u8>,
    compression: Compression,
    width: int,
    height: int,
    pedantic: bool,
) -> Result<Seq<u32>, Error> {
    match sample_table_decompressed(compression, table_section, width * height, pedantic) {
        Err(error) => Err(error),
        Ok(table) => if !disk_table_valid(table, width, height) || samples_before(
            table,
            width,
            table.len() as int,
        ) > i32::MAX {
            Err(Error::Malformed)
        } else {
            Ok(pixel_offsets_of(table, width))
        },
    }
}

/// The channels of a block of `total` samples that a compressed data section
/// stands for, or the reason why it stands for none.
///
/// The section must decompress to the `data_size` bytes that the block
/// announces, and these must be the sample stream of the block, else the
/// sizes do not match.
pub open spec fn decoded_channels(
    data_section: Seq<u8>,
    data_size: int,
    compression: Compression,
    types: Seq<SampleType>,
    total: int,
    pedantic: bool,
) -> Result<Seq<ChannelValues>, Error> {
    match sample_data_decompressed(compression, data_section, data_size, pedantic) {
        Err(error) => Err(error),
        Ok(data) => match accepted_stream(data, total * record_width(types), pedantic) {
            None => Err(Error::SizeMismatch),
            Some(stream) => Ok(unpacked(stream, types, total)),
        },
    }
}

/// What a compressed block stands for: the samples of a block of the given
/// extents and channels, or the reason why it stands for none. The table
/// section is read first, so its faults are reported first.
pub open spec fn decoded_block(
    table_section: Seq<u8>,
    data_section: Seq<u8>,
    data_size: int,
    compression: Compression,
    types: Seq<SampleType>,
    width: int,
    height: int,
    pedantic: bool,
) -> Result<DeepSamplesView, Error> {
    match decoded_offsets(table_section, compression, width, height, pedantic) {
        Err(error) => Err(error),
        Ok(offsets) => match decoded_channels(
            data_section,
            data_size,
            compression,
            types,
            offsets.last() as int,
            pedantic,
        ) {
            Err(error) => Err(error),
            Ok(channels) => Ok(DeepSamplesView { width, height, offsets, channels }),
        },
    }
}

/// A data section of the wrong size is refused: where the table section is
/// sound and the data section decompresses, but not to the sample stream of
/// the block, the block fails with `SizeMismatch`. A section that is too
/// short is of the wrong size in either mode. One that is too long is
/// forgiven only in lenient mode, and only up to seven bytes that are all
/// zero.
pub proof fn lemma_wrong_size_is_refused(
    table_section: Seq<u8>,
    data_section: Seq<u8>,
    data_size: int,
    compression: Compression,
    types: Seq<SampleType>,
    width: int,
    height: int,
    pedantic: bool,
)
    requires
        decoded_offsets(table_section, compression, width, height, pedantic) is Ok,
        sample_data_decompressed(compression, data_section, data_size, pedantic) is Ok,
        ({
            let offsets = decoded_offsets(
                table_section,
                compression,
                width,
                height,
                pedantic,
            )->Ok_0;
            let data = sample_data_decompressed(
                compression,
                data_section,
                data_size,
                pedantic,
            )->Ok_0;
            let expected = offsets.last() * record_width(types);
            &&& data.len() != expected
            &&& {
                ||| pedantic
                ||| data.len() < expected
                ||| data.len() > expected + MAX_PADDING
                ||| exists|i: int| expected <= i < data.len() && data[i] != 0
            }
        }),
    ensures
        decoded_block(
            table_section,
            data_section,
            data_size,
            compression,
            types,
            width,
            height,
            pedantic,
        ) == Err::<DeepSamplesView, Error>(Error::SizeMismatch),
{
}

/// A block without samples has an empty sample stream, and reading the empty
/// stream gives one empty array for each channel, of the channel's type.
pub proof fn lemma_no_samples(samples: DeepSamplesView, types: Seq<SampleType>)
    requires
        samples.total_samples() == 0,
    ensures
        packed_stream(samples) == Seq::<u8>::empty(),
        unpacked(Seq::<u8>::empty(), types, 0) == zeroed_channels(types, 0),
{
    let read = unpacked(Seq::<u8>::empty(), types, 0);
    let fresh = zeroed_channels(types, 0);
    assert forall|c: int| 0 <= c < types.len() implies #[trigger] read[c] == fresh[c] by {
        assert(read[c].bits =~= fresh[c].bits);
    }
    assert(read =~= fresh);
}

/// Whether the method can be relied on to give both sections of a block
/// back: its table and its sample stream.
pub open spec fn method_restores_block(compression: Compression, samples: DeepSamplesView) -> bool {
    &&& method_restores(compression, table_bytes(disk_table_of(samples.offsets, samples.width)))
    &&& method_restores(compression, packed_stream(samples))
}

/// Why the offsets of a block cannot be written as a table section, or
/// `None` where they can.
pub open spec fn table_encode_error(
    samples: DeepSamplesView,
    types: Seq<SampleType>,
    compression: Compression,
) -> Option<Error> {
    if !samples.consistent_with(types) {
        Some(Error::InternalConsistency)
    } else if !disk_entries_fit(samples.offsets, samples.width) {
        Some(Error::Overflow)
    } else if !compression.is_deep() {
        Some(Error::Unsupported)
    } else if 4 * (samples.offsets.len() - 1) > usize::MAX {
        Some(Error::Overflow)
    } else {
        None
    }
}

/// Why a block cannot be compressed, or `None` where it can.
///
/// The block must be sound and hold exactly the channels of the list. No line
/// may hold more than `i32::MAX` samples. The method must be one that can
/// hold deep data. The bytes of the table and of the sample stream must each
/// fit a `usize`.
pub open spec fn encode_error(
    samples: DeepSamplesView,
    types: Seq<SampleType>,
    compression: Compression,
) -> Option<Error> {
    match table_encode_error(samples, types, compression) {
        Some(error) => Some(error),
        None => if stream_len(samples, types) > usize::MAX {
            Some(Error::Overflow)
        } else {
            None
        },
    }
}

/// The table section that is written for a block.
pub open spec fn encoded_table(samples: DeepSamplesView, compression: Compression) -> Seq<u8> {
    section_compressed(compression, table_bytes(disk_table_of(samples.offsets, samples.width)))
}

/// The data section that is written for a block.
pub open spec fn encoded_data(samples: DeepSamplesView, compression: Compression) -> Seq<u8> {
    section_compressed(compression, packed_stream(samples))
}

/// The sample stream within the decompressed data section of a block of
/// `total` samples.
fn accept_stream<'a>(
    data: &'a [u8],
    total: usize,
    channels: &ChannelList,
    pedantic: bool,
) -> (stream: Option<&'a [u8]>)
    ensures
        stream is Some <==> accepted_stream(
            data@,
            total * record_width(channels.types()),
            pedantic,
        ) is Some,
        stream is Some ==> stream->0@ == accepted_stream(
            data@,
            total * record_width(channels.types()),
            pedantic,
        )->0,
        stream is Some ==> stream->0@.len() == total * record_width(channels.types()),
{
    let len = data.len();
    let expected = match expected_stream_len(total, channels) {
        Some(expected) => expected,
        None => {
            return None;
        },
    };
    if len == expected {
        return Some(data);
    }
    if pedantic || len < expected || len - expected > MAX_PADDING {
        return None;
    }
    let mut i: usize = expected;
    while i < len
        invariant
            expected <= i <= len,
            len == data@.len(),
            !pedantic,
            len <= expected + MAX_PADDING,
            expected == total * record_width(channels.types()),
            forall|j: int| expected <= j < i ==> data@[j] == 0,
        decreases len - i,
    {
        if data[i] != 0 {
            assert(data@[i as int] != 0);
            return None;
        }
        i = i + 1;
    }
    let stream = vstd::slice::slice_subrange(data, 0, expected);
    assert(stream@ =~= data@.take(expected as int));
    Some(stream)
}

/// Decompresses the table section of a block into a block that holds its
/// offsets and no channels yet.
fn decompress_offsets(
    table_section: &[u8],
    compression: Compression,
    width: usize,
    height: usize,
    pedantic: bool,
) -> (result: Result<DeepSamples, Error>)
    ensures
        match decoded_offsets(table_section@, compression, width as int, height as int, pedantic) {
            Ok(offsets) => result is Ok && result->Ok_0@.offsets == offsets,
            Err(error) => result is Err && result->Err_0 == error,
        },
        result is Ok ==> {
            &&& result->Ok_0@.width == width
            &&& result->Ok_0@.height == height
            &&& result->Ok_0@.offsets_valid()
        },
{
    let table = match decompress_sample_table(compression, table_section, width, height, pedantic) {
        Ok(table) => table,
        Err(error) => {
            return Err(error);
        },
    };
    match validate_sample_table(&table, width, height) {
        Ok(()) => {},
        Err(error) => {
            return Err(error);
        },
    }
    let offsets = match disk_table_to_pixel_offsets(&table, width, height) {
        Ok(offsets) => offsets,
        Err(error) => {
            return Err(error);
        },
    };
    proof {
        lemma_disk_table_roundtrip(table@, width as int, height as int);
    }
    let mut samples = DeepSamples::new(width, height);
    match samples.set_cumulative_counts(offsets) {
        Ok(()) => Ok(samples),
        Err(error) => Err(error),
    }
}

/// Decompresses the data section of a block into the channels of a block
/// that holds its offsets.
fn decompress_channels(
    samples: &mut DeepSamples,
    data_section: &[u8],
    data_size: usize,
    compression: Compression,
    channels: &ChannelList,
    pedantic: bool,
) -> (result: Result<(), Error>)
    requires
        old(samples)@.offsets_valid(),
    ensures
        match decoded_channels(
            data_section@,
            data_size as int,
            compression,
            channels.types(),
            old(samples)@.total_samples(),
            pedantic,
        ) {
            Ok(read) => result is Ok && final(samples)@ == (DeepSamplesView {
                channels: read,
                ..old(samples)@
            }),
            Err(error) => result is Err && result->Err_0 == error,
        },
        result is Ok ==> final(samples)@.consistent_with(channels.types()),
{
    let data = match decompress_sample_data(compression, data_section, data_size, pedantic) {
        Ok(data) => data,
        Err(error) => {
            return Err(error);
        },
    };
    let total = samples.total_samples();
    let stream = match accept_stream(data.as_slice(), total, channels, pedantic) {
        Some(stream) => stream,
        None => {
            return Err(Error::SizeMismatch);
        },
    };
    assert(stream@.len() == stream_len(samples@, channels.types()));
    match unpack_deep_channels(stream, samples, channels) {
        Ok(()) => {},
        Err(error) => {
            return Err(error);
        },
    }
    samples.validate_channels(channels)
}

/// Decompresses the two sections of a block into its samples.
fn decompress_deep_block(
    table_section: &[u8],
    data_section: &[u8],
    data_size: usize,
    compression: Compression,
    channels: &ChannelList,
    width: usize,
    height: usize,
    pedantic: bool,
) -> (result: Result<DeepSamples, Error>)
    ensures
        match decoded_block(
            table_section@,
            data_section@,
            data_size as int,
            compression,
            channels.types(),
            width as int,
            height as int,
            pedantic,
        ) {
            Ok(samples) => result is Ok && result->Ok_0@ == samples,
            Err(error) => result is Err && result->Err_0 == error,
        },
        result is Ok ==> result->Ok_0@.consistent_with(channels.types()),
{
    let offsets = decompress_offsets(table_section, compression, width, height, pedantic);
    let mut samples = match offsets {
        Ok(samples) => samples,
        Err(error) => {
            return Err(error);
        },
    };
    match decompress_channels(
        &mut samples,
        data_section,
        data_size,
        compression,
        channels,
        pedantic,
    ) {
        Ok(()) => Ok(samples),
        Err(error) => Err(error),
    }
}

/// The offsets of a block come back from the table section that is written
/// for them.
proof fn lemma_offsets_of_encoded_table(
    samples: DeepSamplesView,
    compression: Compression,
    pedantic: bool,
)
    requires
        0 <= samples.width,
        0 <= samples.height,
        samples.offsets_valid(),
        samples.total_samples() <= i32::MAX,
        compression.is_deep(),
        4 * (samples.offsets.len() - 1) <= usize::MAX,
        method_restores(
            compression,
            table_bytes(disk_table_of(samples.offsets, samples.width)),
        ),
    ensures
        decoded_offsets(
            encoded_table(samples, compression),
            compression,
            samples.width,
            samples.height,
            pedantic,
        ) == Ok::<Seq<u32>, Error>(samples.offsets),
{
    let table = disk_table_of(samples.offsets, samples.width);
    lemma_pixel_offsets_roundtrip(samples.offsets, samples.width, samples.height);
    assert(table.len() == samples.width * samples.height);
    lemma_sample_table_restores(compression, table, pedantic);
}

/// The channels of a block come back from the data section that is written
/// for them.
proof fn lemma_channels_of_encoded_data(
    samples: DeepSamples,
    types: Seq<SampleType>,
    compression: Compression,
    pedantic: bool,
)
    requires
        samples@.consistent_with(types),
        compression.is_deep(),
        method_restores(compression, packed_stream(samples@)),
    ensures
        decoded_channels(
            encoded_data(samples@, compression),
            stream_len(samples@, types),
            compression,
            types,
            samples@.total_samples(),
            pedantic,
        ) == Ok::<Seq<ChannelValues>, Error>(samples@.channels),
{
    let stream = packed_stream(samples@);
    lemma_unpack_of_pack(samples, types);
    assert(types_of(samples@.channels) =~= types);
    lemma_stream_prefix_len(samples@.channels, samples@.total_samples());
    assert(stream.len() == stream_len(samples@, types));
    lemma_sample_data_restores(compression, stream, pedantic);
    assert(accepted_stream(stream, stream_len(samples@, types), pedantic) == Some(stream));
}

/// Decompressing what was compressed gives the block back, in either mode:
/// the same extents, the same offsets, and every channel bit for bit.
///
/// This holds of every block that can be compressed and holds no more than
/// `i32::MAX` samples, under every method that can hold deep data, as far as
/// the method can be relied on. A block with more samples can be written
/// where no line of it holds more than `i32::MAX`, but is refused when read.
pub proof fn lemma_decode_of_encode(
    samples: DeepSamples,
    types: Seq<SampleType>,
    compression: Compression,
    pedantic: bool,
)
    requires
        encode_error(samples@, types, compression) is None,
        samples@.total_samples() <= i32::MAX,
        method_restores_block(compression, samples@),
    ensures
        decoded_block(
            encoded_table(samples@, compression),
            encoded_data(samples@, compression),
            stream_len(samples@, types),
            compression,
            types,
            samples@.width,
            samples@.height,
            pedantic,
        ) == Ok::<DeepSamplesView, Error>(samples@),
{
    lemma_offsets_of_encoded_table(samples@, compression, pedantic);
    lemma_channels_of_encoded_data(samples, types, compression, pedantic);
    assert(samples@.offsets.last() as int == samples@.total_samples());
}

/// Checks a block and compresses its offsets into the table section.
fn compress_offsets(
    samples: &DeepSamples,
    compression: Compression,
    channels: &ChannelList,
) -> (result: Result<Vec<u8>, Error>)
    ensures
        result is Ok <==> table_encode_error(samples@, channels.types(), compression) is None,
        result is Err ==> table_encode_error(samples@, channels.types(), compression) == Some(
            result->Err_0,
        ),
        result is Ok ==> result->Ok_0@ == encoded_table(samples@, compression),
{
    match samples.validate_channels(channels) {
        Ok(()) => {},
        Err(error) => {
            return Err(error);
        },
    }
    let table = match pixel_offsets_to_disk_table(
        &samples.sample_offsets,
        samples.width,
        samples.height,
    ) {
        Ok(table) => table,
        Err(error) => {
            return Err(error);
        },
    };
    compress_sample_table(compression, table.as_slice())
}

/// Compresses the channels of a checked block into the data section, and
/// gives the length of the sample stream with it.
fn compress_channels(
    samples: &DeepSamples,
    compression: Compression,
    channels: &ChannelList,
) -> (result: Result<(Vec<u8>, usize), Error>)
    requires
        samples@.consistent_with(channels.types()),
        compression.is_deep(),
    ensures
        result is Ok <==> stream_len(samples@, channels.types()) <= usize::MAX,
        result is Err ==> result->Err_0 == Error::Overflow,
        result is Ok ==> {
            &&& result->Ok_0.0@ == encoded_data(samples@, compression)
            &&& result->Ok_0.1 == stream_len(samples@, channels.types())
        },
{
    let packed = match pack_deep_channels(samples, channels) {
        Ok(packed) => packed,
        Err(error) => {
            return Err(error);
        },
    };
    let decompressed_size = packed.len();
    match compress_sample_data(compression, packed.as_slice()) {
        Ok(section) => Ok((section, decompressed_size)),
        Err(error) => Err(error),
    }
}

/// Compresses the samples of a block into its two sections, and gives the
/// length of the sample stream with them.
fn compress_deep_block(
    samples: &DeepSamples,
    compression: Compression,
    channels: &ChannelList,
) -> (result: Result<(Vec<u8>, Vec<u8>, usize), Error>)
    ensures
        result is Ok <==> encode_error(samples@, channels.types(), compression) is None,
        result is Err ==> encode_error(samples@, channels.types(), compression) == Some(
            result->Err_0,
        ),
        result is Ok ==> {
            &&& result->Ok_0.0@ == encoded_table(samples@, compression)
            &&& result->Ok_0.1@ == encoded_data(samples@, compression)
            &&& result->Ok_0.2 == stream_len(samples@, channels.types())
        },
{
    let table_section = match compress_offsets(samples, compression, channels) {
        Ok(section) => section,
        Err(error) => {
            return Err(error);
        },
    };
    match compress_channels(samples, compression, channels) {
        Ok((data_section, decompressed_size)) => Ok(
            (table_section, data_section, decompressed_size),
        ),
        Err(error) => Err(error),
    }
}

/// What a compressed block of scan lines stands for.
pub open spec fn decoded_scanline_block(
    block: CompressedDeepScanLineBlock,
    compression: Compression,
    types: Seq<SampleType>,
    width: int,
    height: int,
    pedantic: bool,
) -> Result<DeepSamplesView, Error> {
    decoded_block(
        block.compressed_pixel_offset_table@,
        block.compressed_sample_data_le@,
        block.decompressed_sample_data_size as int,
        compression,
        types,
        width,
        height,
        pedantic,
    )
}

/// What a compressed tile stands for.
pub open spec fn decoded_tile_block(
    block: CompressedDeepTileBlock,
    compression: Compression,
    types: Seq<SampleType>,
    width: int,
    height: int,
    pedantic: bool,
) -> Result<DeepSamplesView, Error> {
    decoded_block(
        block.compressed_pixel_offset_table@,
        block.compressed_sample_data_le@,
        block.decompressed_sample_data_size as int,
        compression,
        types,
        width,
        height,
        pedantic,
    )
}

/// Decompresses a block of deep scan lines.
///
/// The table of sample counts is decompressed, checked and turned into the
/// offsets of the block. The sample stream is decompressed and unpacked into
/// one array per channel. The result is the block that the sections stand
/// for, or the reason why they stand for none.
pub fn decompress_deep_scanline_block(
    block: &CompressedDeepScanLineBlock,
    compression: Compression,
    channels: &ChannelList,
    data_window_width: usize,
    lines_per_block: usize,
    pedantic: bool,
) -> (result: Result<DeepSamples, Error>)
    ensures
        match decoded_scanline_block(
            *block,
            compression,
            channels.types(),
            data_window_width as int,
            lines_per_block as int,
            pedantic,
        ) {
            Ok(samples) => result is Ok && result->Ok_0@ == samples,
            Err(error) => result is Err && result->Err_0 == error,
        },
        result is Ok ==> result->Ok_0@.consistent_with(channels.types()),
{
    decompress_deep_block(
        block.compressed_pixel_offset_table.as_slice(),
        block.compressed_sample_data_le.as_slice(),
        block.decompressed_sample_data_size,
        compression,
        channels,
        data_window_width,
        lines_per_block,
        pedantic,
    )
}

/// Decompresses a deep tile. The sections of a tile are those of a block of
/// scan lines, with the extents of the tile.
pub fn decompress_deep_tile_block(
    block: &CompressedDeepTileBlock,
    compression: Compression,
    channels: &ChannelList,
    tile_width: usize,
    tile_height: usize,
    pedantic: bool,
) -> (result: Result<DeepSamples, Error>)
    ensures
        match decoded_tile_block(
            *block,
            compression,
            channels.types(),
            tile_width as int,
            tile_height as int,
            pedantic,
        ) {
            Ok(samples) => result is Ok && result->Ok_0@ == samples,
            Err(error) => result is Err && result->Err_0 == error,
        },
        result is Ok ==> result->Ok_0@.consistent_with(channels.types()),
{
    decompress_deep_block(
        block.compressed_pixel_offset_table.as_slice(),
        block.compressed_sample_data_le.as_slice(),
        block.decompressed_sample_data_size,
        compression,
        channels,
        tile_width,
        tile_height,
        pedantic,
    )
}

/// Compresses the samples of a block of deep scan lines.
///
/// The offsets become the table of sample counts, the channels the sample
/// stream, and both are compressed. The block is refused for the reason that
/// [`encode_error`] gives. Otherwise the result carries the given coordinate,
/// the two sections, and the length of the sample stream.
pub fn compress_deep_scanline_block(
    samples: &DeepSamples,
    compression: Compression,
    channels: &ChannelList,
    y_coordinate: i32,
) -> (result: Result<CompressedDeepScanLineBlock, Error>)
    ensures
        result is Ok <==> encode_error(samples@, channels.types(), compression) is None,
        result is Err ==> encode_error(samples@, channels.types(), compression) == Some(
            result->Err_0,
        ),
        result is Ok ==> {
            let block = result->Ok_0;
            &&& block.y_coordinate == y_coordinate
            &&& block.decompressed_sample_data_size == stream_len(samples@, channels.types())
            &&& block.compressed_pixel_offset_table@ == encoded_table(samples@, compression)
            &&& block.compressed_sample_data_le@ == encoded_data(samples@, compression)
        },
{
    match compress_deep_block(samples, compression, channels) {
        Ok((table_section, data_section, decompressed_size)) => Ok(
            CompressedDeepScanLineBlock {
                y_coordinate,
                decompressed_sample_data_size: decompressed_size,
                compressed_pixel_offset_table: table_section,
                compressed_sample_data_le: data_section,
            },
        ),
        Err(error) => Err(error),
    }
}

/// Compresses the samples of a deep tile.
///
/// The tile is refused for the reason that [`encode_error`] gives. Otherwise
/// the result carries the given coordinates, the two sections, and the length
/// of the sample stream.
pub fn compress_deep_tile_block(
    samples: &DeepSamples,
    compression: Compression,
    channels: &ChannelList,
    coordinates: TileCoordinates,
) -> (result: Result<CompressedDeepTileBlock, Error>)
    ensures
        result is Ok <==> encode_error(samples@, channels.types(), compression) is None,
        result is Err ==> encode_error(samples@, channels.types(), compression) == Some(
            result->Err_0,
        ),
        result is Ok ==> {
            let block = result->Ok_0;
            &&& block.coordinates == coordinates
            &&& block.decompressed_sample_data_size == stream_len(samples@, channels.types())
            &&& block.compressed_pixel_offset_table@ == encoded_table(samples@, compression)
            &&& block.compressed_sample_data_le@ == encoded_data(samples@, compression)
        },
{
    match compress_deep_block(samples, compression, channels) {
        Ok((table_section, data_section, decompressed_size)) => Ok(
            CompressedDeepTileBlock {
                coordinates,
                decompressed_sample_data_size: decompressed_size,
                compressed_pixel_offset_table: table_section,
                compressed_sample_data_le: data_section,
            },
        ),
        Err(error) => Err(error),
    }
}

} // verus!
