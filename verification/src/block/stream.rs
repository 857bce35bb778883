//! The sample stream of a deep block: the layout of the decompressed sample
//! bytes.
//!
//! The stream holds the samples in the order of their index: pixel after
//! pixel, and within a pixel sample after sample. Each sample is one record:
//! the value of every channel, in the order of the channel list, each value
//! in little-endian bytes.

use crate::image::deep::ChannelValues;
use crate::image::deep::DeepSamplesView;
use crate::le::le_byte;
use crate::le::lemma_u16_le_bytes;
use crate::le::lemma_u16_le_roundtrip;
use crate::le::lemma_u32_le_bytes;
use crate::le::lemma_u32_le_roundtrip;
use crate::le::u16_from_le;
use crate::le::u32_from_le;
use crate::meta::attribute::lemma_record_offset_bounds;
use crate::meta::attribute::lemma_record_offset_monotonic;
use crate::meta::attribute::record_offset;
use crate::meta::attribute::record_width;
use crate::meta::attribute::SampleType;
use vstd::arithmetic::div_mod::lemma_div_pos_is_pos;
use vstd::arithmetic::div_mod::lemma_fundamental_div_mod;
use vstd::arithmetic::div_mod::lemma_mod_bound;
use vstd::arithmetic::div_mod::lemma_multiply_divide_lt;
use vstd::arithmetic::mul::lemma_mul_is_commutative;
use vstd::arithmetic::mul::lemma_mul_is_distributive_add_other_way;
use vstd::prelude::*;

verus! {

/// The types of the given channels, in order.
pub open spec fn types_of(channels: Seq<ChannelValues>) -> Seq<SampleType> {
    Seq::new(channels.len(), |c: int| channels[c].sample_type)
}

/// The bytes of one value on disk.
pub open spec fn value_bytes(sample_type: SampleType, bits: u32) -> Seq<u8> {
    Seq::new(sample_type.width() as nat, |j: int| le_byte(bits as int, j))
}

/// The first bytes of the record of sample `g`: the values of the first `c`
/// channels.
pub open spec fn record_prefix(channels: Seq<ChannelValues>, g: int, c: int) -> Seq<u8>
    decreases c,
{
    if c <= 0 {
        Seq::empty()
    } else {
        record_prefix(channels, g, c - 1) + value_bytes(
            channels[c - 1].sample_type,
            channels[c - 1].bits[g],
        )
    }
}

/// The record of sample `g`: its value in every channel.
pub open spec fn record(channels: Seq<ChannelValues>, g: int) -> Seq<u8> {
    record_prefix(channels, g, channels.len() as int)
}

/// The records of the first `n` samples, one after the other.
pub open spec fn stream_prefix(channels: Seq<ChannelValues>, n: int) -> Seq<u8>
    decreases n,
{
    if n <= 0 {
        Seq::empty()
    } else {
        stream_prefix(channels, n - 1) + record(channels, n - 1)
    }
}

/// The sample stream of a block: the records of all its samples.
pub open spec fn packed_stream(samples: DeepSamplesView) -> Seq<u8> {
    stream_prefix(samples.channels, samples.total_samples())
}

/// The value of the given type whose bytes start at position `at` of `data`.
pub open spec fn value_at(sample_type: SampleType, data: Seq<u8>, at: int) -> u32 {
    match sample_type {
        SampleType::F16 => u16_from_le(data[at], data[at + 1]) as u32,
        SampleType::F32 => u32_from_le(data[at], data[at + 1], data[at + 2], data[at + 3]) as u32,
        SampleType::U32 => u32_from_le(data[at], data[at + 1], data[at + 2], data[at + 3]) as u32,
    }
}

/// The position in the stream at which the value of channel `c` of sample `g`
/// starts.
pub open spec fn value_position(types: Seq<SampleType>, g: int, c: int) -> int {
    g * record_width(types) + record_offset(types, c)
}

/// Channel `c` as it is read from a stream of `total` samples.
pub open spec fn unpacked_channel(data: Seq<u8>, types: Seq<SampleType>, total: int, c: int)
    -> ChannelValues {
    ChannelValues {
        sample_type: types[c],
        bits: Seq::new(
            total as nat,
            |g: int| value_at(types[c], data, value_position(types, g, c)),
        ),
    }
}

/// The channels as they are read from a stream of `total` samples.
pub open spec fn unpacked(data: Seq<u8>, types: Seq<SampleType>, total: int) -> Seq<
    ChannelValues,
> {
    Seq::new(types.len(), |c: int| unpacked_channel(data, types, total, c))
}

/// Every channel holds `total` values, and every half-precision value is a
/// 16-bit pattern. This holds of the channels of every block.
pub open spec fn channels_hold(channels: Seq<ChannelValues>, total: int) -> bool {
    forall|c: int|
        0 <= c < channels.len() ==> {
            &&& (#[trigger] channels[c]).bits.len() == total
            &&& channels[c].sample_type == SampleType::F16 ==> forall|g: int|
                0 <= g < total ==> #[trigger] channels[c].bits[g] < 0x1_0000
        }
}

/// The first `c` values of a record end where channel `c` starts.
pub proof fn lemma_record_prefix_len(channels: Seq<ChannelValues>, g: int, c: int)
    requires
        0 <= c <= channels.len(),
    ensures
        record_prefix(channels, g, c).len() == record_offset(types_of(channels), c),
    decreases c,
{
    if c > 0 {
        lemma_record_prefix_len(channels, g, c - 1);
    }
}

/// The stream of `n` samples is `n` records long.
pub proof fn lemma_stream_prefix_len(channels: Seq<ChannelValues>, n: int)
    requires
        0 <= n,
    ensures
        stream_prefix(channels, n).len() == n * record_width(types_of(channels)),
    decreases n,
{
    let width = record_width(types_of(channels));
    if n > 0 {
        lemma_stream_prefix_len(channels, n - 1);
        lemma_record_prefix_len(channels, n - 1, channels.len() as int);
        lemma_mul_is_distributive_add_other_way(width, n - 1, 1);
    } else {
        assert(0 * width == 0);
    }
}

/// Byte `j` of the value of channel `c` stands in the record where the layout
/// says.
pub proof fn lemma_record_prefix_index(
    channels: Seq<ChannelValues>,
    g: int,
    upto: int,
    c: int,
    j: int,
)
    requires
        0 <= c < upto <= channels.len(),
        0 <= j < channels[c].sample_type.width(),
    ensures
        record_offset(types_of(channels), c) + j < record_prefix(channels, g, upto).len(),
        record_prefix(channels, g, upto)[record_offset(types_of(channels), c) + j] == le_byte(
            channels[c].bits[g] as int,
            j,
        ),
    decreases upto,
{
    let types = types_of(channels);
    let before = record_prefix(channels, g, upto - 1);
    let last = value_bytes(channels[upto - 1].sample_type, channels[upto - 1].bits[g]);
    let at = record_offset(types, c) + j;
    assert(record_prefix(channels, g, upto) == before + last);
    lemma_record_prefix_len(channels, g, upto - 1);
    lemma_record_offset_monotonic(types, 0, c);
    if c < upto - 1 {
        lemma_record_prefix_index(channels, g, upto - 1, c, j);
        assert((before + last)[at] == before[at]);
    } else {
        assert((before + last)[at] == last[j]);
    }
}

/// Byte `j` of the value of channel `c` of sample `g` stands in the stream
/// where the layout says.
pub proof fn lemma_stream_prefix_index(channels: Seq<ChannelValues>, n: int, g: int, c: int, j: int)
    requires
        0 <= g < n,
        0 <= c < channels.len(),
        0 <= j < channels[c].sample_type.width(),
    ensures
        0 <= value_position(types_of(channels), g, c) + j < stream_prefix(channels, n).len(),
        stream_prefix(channels, n)[value_position(types_of(channels), g, c) + j] == le_byte(
            channels[c].bits[g] as int,
            j,
        ),
    decreases n,
{
    let types = types_of(channels);
    let width = record_width(types);
    lemma_stream_prefix_len(channels, n);
    lemma_stream_prefix_len(channels, n - 1);
    lemma_record_prefix_index(channels, g, channels.len() as int, c, j);
    lemma_record_prefix_len(channels, g, channels.len() as int);
    lemma_record_offset_monotonic(types, 0, c);
    assert(0 <= g * width) by (nonlinear_arith)
        requires
            0 <= g,
            0 <= width,
    ;
    if g < n - 1 {
        lemma_stream_prefix_index(channels, n - 1, g, c, j);
    }
}

/// Reading a stream that was written from some channels gives those channels
/// back, bit for bit.
pub proof fn lemma_unpacked_stream(channels: Seq<ChannelValues>, total: int)
    requires
        0 <= total,
        channels_hold(channels, total),
    ensures
        unpacked(stream_prefix(channels, total), types_of(channels), total) == channels,
{
    let types = types_of(channels);
    let data = stream_prefix(channels, total);
    let read = unpacked(data, types, total);
    assert forall|c: int| 0 <= c < channels.len() implies #[trigger] read[c] == channels[c] by {
        assert(channels[c].bits.len() == total);
        assert forall|g: int| 0 <= g < total implies #[trigger] read[c].bits[g]
            == channels[c].bits[g] by {
            let at = value_position(types, g, c);
            let bits = channels[c].bits[g];
            lemma_stream_prefix_index(channels, total, g, c, 0);
            lemma_stream_prefix_index(channels, total, g, c, 1);
            if channels[c].sample_type == SampleType::F16 {
                assert(bits < 0x1_0000);
                lemma_u16_le_roundtrip(bits as int);
            } else {
                lemma_stream_prefix_index(channels, total, g, c, 2);
                lemma_stream_prefix_index(channels, total, g, c, 3);
                lemma_u32_le_roundtrip(bits as int);
            }
        }
        assert(read[c].bits =~= channels[c].bits);
    }
    assert(read =~= channels);
}

/// Every byte of a record belongs to the value of one channel: the channel
/// that is returned covers position `r` of the record.
pub proof fn lemma_covering_channel(types: Seq<SampleType>, upto: int, r: int) -> (c: int)
    requires
        0 <= upto <= types.len(),
        0 <= r < record_offset(types, upto),
    ensures
        0 <= c < upto,
        record_offset(types, c) <= r < record_offset(types, c) + types[c].width(),
    decreases upto,
{
    if r >= record_offset(types, upto - 1) {
        upto - 1
    } else {
        lemma_covering_channel(types, upto - 1, r)
    }
}

/// Writing the channels that were read from a stream gives the stream back:
/// every byte of a stream of the right length is read, and read once.
pub proof fn lemma_pack_of_unpack(data: Seq<u8>, types: Seq<SampleType>, total: int)
    requires
        0 <= total,
        data.len() == total * record_width(types),
    ensures
        stream_prefix(unpacked(data, types, total), total) == data,
{
    let channels = unpacked(data, types, total);
    let written = stream_prefix(channels, total);
    let width = record_width(types);
    assert(types_of(channels) =~= types);
    lemma_stream_prefix_len(channels, total);
    lemma_record_offset_bounds(types, types.len() as int);
    assert forall|k: int| 0 <= k < data.len() implies written[k] == data[k] by {
        assert(width > 0) by (nonlinear_arith)
            requires
                0 < total * width,
                0 <= total,
                0 <= width,
        ;
        let g = k / width;
        let r = k % width;
        lemma_fundamental_div_mod(k, width);
        lemma_mod_bound(k, width);
        lemma_div_pos_is_pos(k, width);
        lemma_mul_is_commutative(width, total);
        lemma_multiply_divide_lt(k, width, total);
        lemma_mul_is_commutative(width, g);
        let c = lemma_covering_channel(types, types.len() as int, r);
        let j = r - record_offset(types, c);
        let at = value_position(types, g, c);
        assert(at + j == k);
        lemma_stream_prefix_index(channels, total, g, c, j);
        assert(channels[c].bits[g] == value_at(types[c], data, at));
        if types[c] == SampleType::F16 {
            lemma_u16_le_bytes(data[at], data[at + 1]);
        } else {
            lemma_u32_le_bytes(data[at], data[at + 1], data[at + 2], data[at + 3]);
        }
    }
    assert(written =~= data);
}

} // verus!
