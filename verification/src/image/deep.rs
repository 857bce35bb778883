//! Deep samples in memory: one offset table for the block and one array of
//! values for each channel.
//!
//! Pixel `i` of a block owns the samples from `sample_offsets[i]` up to, but
//! not including, `sample_offsets[i + 1]`. Every channel holds one value for
//! each of these samples, at the sample's index.

use crate::block::table::has_one_entry_per_pixel;
use crate::block::table::pixel_offsets_valid;
use crate::block::table::validate_pixel_offsets;
use crate::error::Error;
use crate::meta::attribute::ChannelList;
use crate::meta::attribute::SampleType;
use vstd::prelude::*;

verus! {

/// The values of one channel, one for each sample of the block.
///
/// Floating-point values are held as their bit patterns: `F16` holds the 16
/// bits of each half-precision value, `F32` the 32 bits of each
/// single-precision value.
#[derive(Clone, Debug, PartialEq, Eq)]
pub enum DeepChannelData {
    F16(Vec<u16>),
    F32(Vec<u32>),
    U32(Vec<u32>),
}

/// What a channel holds, as a mathematical value: the type of its values and
/// the bit pattern of each.
pub struct ChannelValues {
    pub sample_type: SampleType,
    pub bits: Seq<u32>,
}

impl View for DeepChannelData {
    type V = ChannelValues;

    open spec fn view(&self) -> ChannelValues {
        match self {
            DeepChannelData::F16(values) => ChannelValues {
                sample_type: SampleType::F16,
                bits: Seq::new(values@.len(), |i: int| values@[i] as u32),
            },
            DeepChannelData::F32(values) => ChannelValues {
                sample_type: SampleType::F32,
                bits: values@,
            },
            DeepChannelData::U32(values) => ChannelValues {
                sample_type: SampleType::U32,
                bits: values@,
            },
        }
    }
}

/// A channel of `len` values of the given type, all of them zero.
pub open spec fn zeroed_channel(sample_type: SampleType, len: nat) -> ChannelValues {
    ChannelValues { sample_type, bits: Seq::new(len, |i: int| 0u32) }
}

impl DeepChannelData {
    /// A channel of `len` values of the given type, all of them zero.
    pub fn zeroed(sample_type: SampleType, len: usize) -> (channel: Self)
        ensures
            channel@ == zeroed_channel(sample_type, len as nat),
    {
        let channel = match sample_type {
            SampleType::F16 => {
                let mut values: Vec<u16> = Vec::new();
                values.resize(len, 0);
                DeepChannelData::F16(values)
            },
            SampleType::F32 => {
                let mut values: Vec<u32> = Vec::new();
                values.resize(len, 0);
                DeepChannelData::F32(values)
            },
            SampleType::U32 => {
                let mut values: Vec<u32> = Vec::new();
                values.resize(len, 0);
                DeepChannelData::U32(values)
            },
        };
        assert(channel@.bits =~= zeroed_channel(sample_type, len as nat).bits);
        channel
    }

    /// The type of the values of this channel.
    pub fn sample_type(&self) -> (sample_type: SampleType)
        ensures
            sample_type == self@.sample_type,
    {
        match self {
            DeepChannelData::F16(_) => SampleType::F16,
            DeepChannelData::F32(_) => SampleType::F32,
            DeepChannelData::U32(_) => SampleType::U32,
        }
    }

    /// The number of values that this channel holds.
    pub fn len(&self) -> (len: usize)
        ensures
            len == self@.bits.len(),
    {
        match self {
            DeepChannelData::F16(values) => values.len(),
            DeepChannelData::F32(values) => values.len(),
            DeepChannelData::U32(values) => values.len(),
        }
    }
}

/// The samples of one block.
#[derive(Clone, Debug, PartialEq, Eq)]
pub struct DeepSamples {
    /// The number of pixels in a line of the block.
    pub width: usize,
    /// The number of lines of the block.
    pub height: usize,
    /// For each pixel the number of samples before it, and at the end the
    /// number of samples of the block. Empty until the counts are set.
    pub sample_offsets: Vec<u32>,
    /// The values, one entry per channel.
    pub channels: Vec<DeepChannelData>,
}

/// What a block holds, as a mathematical value.
pub struct DeepSamplesView {
    pub width: int,
    pub height: int,
    pub offsets: Seq<u32>,
    pub channels: Seq<ChannelValues>,
}

impl View for DeepSamples {
    type V = DeepSamplesView;

    open spec fn view(&self) -> DeepSamplesView {
        DeepSamplesView {
            width: self.width as int,
            height: self.height as int,
            offsets: self.sample_offsets@,
            channels: Seq::new(self.channels@.len(), |c: int| self.channels@[c]@),
        }
    }
}

impl DeepSamplesView {
    /// The number of samples of the block: the last offset, or zero while
    /// the counts are not set.
    pub open spec fn total_samples(self) -> int {
        if self.offsets.len() == 0 {
            0
        } else {
            self.offsets.last() as int
        }
    }

    /// The offset table is complete: one entry more than there are pixels,
    /// starting at zero and never falling.
    pub open spec fn offsets_valid(self) -> bool {
        pixel_offsets_valid(self.offsets, self.width, self.height)
    }

    /// Every channel holds one value for each sample of the block.
    pub open spec fn channels_complete(self) -> bool {
        forall|c: int|
            0 <= c < self.channels.len() ==> (#[trigger] self.channels[c]).bits.len()
                == self.total_samples()
    }

    /// The block is sound in itself: its offset table is complete and every
    /// channel holds one value per sample.
    pub open spec fn valid(self) -> bool {
        self.offsets_valid() && self.channels_complete()
    }

    /// The block holds exactly the channels `types`, in that order.
    pub open spec fn has_channels(self, types: Seq<SampleType>) -> bool {
        &&& self.channels.len() == types.len()
        &&& forall|c: int|
            0 <= c < types.len() ==> (#[trigger] self.channels[c]).sample_type == types[c]
    }

    /// The block with its channels replaced by one zeroed channel for each of
    /// `types`, each with one value per sample.
    pub open spec fn allocated(self, types: Seq<SampleType>) -> DeepSamplesView {
        DeepSamplesView {
            channels: zeroed_channels(types, self.total_samples() as nat),
            ..self
        }
    }

    /// The block is sound in itself and holds exactly the channels `types`:
    /// what the codec asks of a block before it writes it, and what it
    /// promises of a block that it has read.
    pub open spec fn consistent_with(self, types: Seq<SampleType>) -> bool {
        self.valid() && self.has_channels(types)
    }
}

/// The offsets that `set_cumulative_counts` installs for the given counts: the
/// counts themselves, with a zero in front where they come without one.
pub open spec fn completed_offsets(counts: Seq<u32>, width: int, height: int) -> Seq<u32> {
    if counts.len() == width * height {
        seq![0u32] + counts
    } else {
        counts
    }
}

/// The channels that `allocate_channels` installs: one zeroed channel of
/// `total` values for each of `types`.
pub open spec fn zeroed_channels(types: Seq<SampleType>, total: nat) -> Seq<ChannelValues> {
    Seq::new(types.len(), |c: int| zeroed_channel(types[c], total))
}

/// Allocating the same channels a second time changes nothing, and a block
/// with a complete offset table is consistent with the channels that were
/// allocated for it.
pub proof fn lemma_allocated(samples: DeepSamplesView, types: Seq<SampleType>)
    ensures
        samples.allocated(types).allocated(types) == samples.allocated(types),
        samples.offsets_valid() ==> samples.allocated(types).consistent_with(types),
{
}

impl DeepSamples {
    /// A block of the given extents, with no counts set and no channels.
    pub fn new(width: usize, height: usize) -> (samples: Self)
        ensures
            samples@.width == width,
            samples@.height == height,
            samples@.offsets.len() == 0,
            samples@.channels.len() == 0,
    {
        DeepSamples { width, height, sample_offsets: Vec::new(), channels: Vec::new() }
    }

    /// Installs the offset table.
    ///
    /// `counts` holds the running number of samples, either with one entry
    /// per pixel, or with a leading zero and so one entry more. The counts are
    /// refused as malformed where their length is neither, or where they
    /// fall from one entry to the next; the block is then left as it was.
    pub fn set_cumulative_counts(&mut self, counts: Vec<u32>) -> (result: Result<(), Error>)
        ensures
            result is Ok <==> pixel_offsets_valid(
                completed_offsets(counts@, old(self)@.width, old(self)@.height),
                old(self)@.width,
                old(self)@.height,
            ),
            result is Ok ==> final(self)@ == (DeepSamplesView {
                offsets: completed_offsets(counts@, old(self)@.width, old(self)@.height),
                ..old(self)@
            }),
            result is Err ==> result->Err_0 == Error::Malformed && *final(self) == *old(self),
    {
        let mut offsets = counts;
        if has_one_entry_per_pixel(offsets.len(), self.width, self.height) {
            offsets.insert(0, 0);
            assert(offsets@ =~= seq![0u32] + counts@);
        }
        if !validate_pixel_offsets(&offsets, self.width, self.height) {
            return Err(Error::Malformed);
        }
        self.sample_offsets = offsets;
        Ok(())
    }

    /// Replaces the channels by one zeroed array per channel of the list,
    /// each with one value for every sample of the block.
    pub fn allocate_channels(&mut self, channels: &ChannelList)
        ensures
            final(self)@ == old(self)@.allocated(channels.types()),
    {
        let total = self.total_samples();
        let list = channels.as_slice();
        let mut allocated: Vec<DeepChannelData> = Vec::new();
        let mut c: usize = 0;
        while c < list.len()
            invariant
                c <= list.len(),
                list@ == channels.channels(),
                allocated@.len() == c,
                forall|d: int|
                    0 <= d < c ==> (#[trigger] allocated@[d])@ == zeroed_channel(
                        channels.types()[d],
                        total as nat,
                    ),
            decreases list.len() - c,
        {
            allocated.push(DeepChannelData::zeroed(list[c].sample_type, total));
            c = c + 1;
        }
        self.channels = allocated;
        assert(self@.channels =~= zeroed_channels(channels.types(), total as nat));
    }

    /// The number of samples of the block: the last offset, or zero while
    /// the counts are not set.
    pub fn total_samples(&self) -> (total: usize)
        ensures
            total == self@.total_samples(),
    {
        if self.sample_offsets.len() == 0 {
            0
        } else {
            self.sample_offsets[self.sample_offsets.len() - 1] as usize
        }
    }

    /// The number of pixels of the block.
    pub fn pixel_count(&self) -> (pixels: usize)
        requires
            self@.width * self@.height <= usize::MAX,
        ensures
            pixels == self@.width * self@.height,
    {
        self.width * self.height
    }

    /// The samples of one pixel: the index of its first sample, and the
    /// index after its last.
    pub fn sample_range(&self, pixel_index: usize) -> (range: (usize, usize))
        requires
            pixel_index + 1 < self@.offsets.len(),
        ensures
            range.0 == self@.offsets[pixel_index as int],
            range.1 == self@.offsets[pixel_index + 1],
    {
        assert(self.sample_offsets.len() == self.sample_offsets@.len());
        (self.sample_offsets[pixel_index] as usize, self.sample_offsets[pixel_index + 1] as usize)
    }

    /// Checks that the block is sound in itself: that its offset table is
    /// complete and that every channel holds one value per sample.
    pub fn validate(&self) -> (result: Result<(), Error>)
        ensures
            result is Ok <==> self@.valid(),
            result is Err ==> result->Err_0 == Error::InternalConsistency,
    {
        if !validate_pixel_offsets(&self.sample_offsets, self.width, self.height) {
            return Err(Error::InternalConsistency);
        }
        let total = self.total_samples();
        let mut c: usize = 0;
        while c < self.channels.len()
            invariant
                c <= self.channels.len(),
                total == self@.total_samples(),
                forall|d: int|
                    0 <= d < c ==> (#[trigger] self@.channels[d]).bits.len() == total,
            decreases self.channels.len() - c,
        {
            if self.channels[c].len() != total {
                assert(self@.channels[c as int].bits.len() != total);
                return Err(Error::InternalConsistency);
            }
            c = c + 1;
        }
        Ok(())
    }

    /// Checks the block against a channel list: that it is sound in itself
    /// and holds exactly the channels of the list, in the order of the list.
    pub fn validate_channels(&self, channels: &ChannelList) -> (result: Result<(), Error>)
        ensures
            result is Ok <==> self@.consistent_with(channels.types()),
            result is Err ==> result->Err_0 == Error::InternalConsistency,
    {
        match self.validate() {
            Ok(()) => {},
            Err(error) => {
                return Err(error);
            },
        }
        if self.has_channels(channels) {
            Ok(())
        } else {
            Err(Error::InternalConsistency)
        }
    }

    /// Whether the block holds exactly the channels of the list, in the
    /// order of the list.
    pub fn has_channels(&self, channels: &ChannelList) -> (matches: bool)
        ensures
            matches <==> self@.has_channels(channels.types()),
    {
        let list = channels.as_slice();
        if self.channels.len() != list.len() {
            return false;
        }
        let mut c: usize = 0;
        while c < self.channels.len()
            invariant
                c <= self.channels.len(),
                self.channels.len() == list.len(),
                list@ == channels.channels(),
                forall|d: int|
                    0 <= d < c ==> (#[trigger] self@.channels[d]).sample_type
                        == channels.types()[d],
            decreases self.channels.len() - c,
        {
            let held = self.channels[c].sample_type();
            let listed = list[c].sample_type;
            if !same_sample_type(held, listed) {
                assert(self@.channels[c as int].sample_type != channels.types()[c as int]);
                return false;
            }
            c = c + 1;
        }
        true
    }
}

/// Whether two sample types are the same.
fn same_sample_type(a: SampleType, b: SampleType) -> (same: bool)
    ensures
        same <==> a == b,
{
    match (a, b) {
        (SampleType::U32, SampleType::U32) => true,
        (SampleType::F16, SampleType::F16) => true,
        (SampleType::F32, SampleType::F32) => true,
        _ => false,
    }
}

} // verus!
