//! Channel descriptions: the type of each channel and the order in which the
//! channels of one sample follow each other on disk.

use vstd::prelude::*;

verus! {

/// The type of the values of one channel.
#[derive(Clone, Copy, Debug, PartialEq, Eq, Structural)]
pub enum SampleType {
    /// Unsigned 32-bit integers.
    U32,
    /// Half-precision floating point, 2 bytes.
    F16,
    /// Single-precision floating point, 4 bytes.
    F32,
}

impl SampleType {
    /// The number of bytes that one value of this type takes on disk.
    pub open spec fn width(self) -> int {
        match self {
            SampleType::F16 => 2,
            SampleType::U32 => 4,
            SampleType::F32 => 4,
        }
    }

    /// The number of bytes that one value of this type takes on disk.
    pub fn bytes_per_sample(&self) -> (n: usize)
        ensures
            n == self.width(),
    {
        match self {
            SampleType::F16 => 2,
            SampleType::U32 => 4,
            SampleType::F32 => 4,
        }
    }
}

/// One channel of an image: its name, the type of its values, and whether
/// the values are to be read as linear light.
#[derive(Clone, Debug, PartialEq, Eq)]
pub struct ChannelDescription {
    pub name: String,
    pub sample_type: SampleType,
    pub is_linear: bool,
}

impl ChannelDescription {
    /// A channel with the given name and type.
    pub fn new(name: &str, sample_type: SampleType, is_linear: bool) -> (channel: Self)
        ensures
            channel.name@ == name@,
            channel.sample_type == sample_type,
            channel.is_linear == is_linear,
    {
        ChannelDescription { name: name.to_owned(), sample_type, is_linear }
    }
}

/// The channels of a list, held in a small vector: up to five channels lie
/// within the list itself, more lie on the heap.
///
/// Trusted: the field is a `smallvec::SmallVec`, which Verus does not look
/// into. What it holds is known to Verus as [`channel_items`] only.
#[derive(Debug, PartialEq, Eq)]
#[verifier::external_body]
pub struct ChannelItems {
    items: smallvec::SmallVec<[ChannelDescription; 5]>,
}

/// The channels that a small vector holds, in their order.
pub uninterp spec fn channel_items(list: ChannelItems) -> Seq<ChannelDescription>;

/// Moves channels into a small vector.
///
/// Trusted: the body calls `smallvec::SmallVec::from_vec`. The contract
/// claims that the small vector holds the channels of the vector, in the
/// same order.
#[verifier::external_body]
fn items_from_vec(channels: Vec<ChannelDescription>) -> (list: ChannelItems)
    ensures
        channel_items(list) == channels@,
{
    ChannelItems { items: smallvec::SmallVec::from_vec(channels) }
}

/// The channels of a small vector as a slice.
///
/// Trusted: the body calls `smallvec::SmallVec::as_slice`. The contract
/// claims that the slice holds the channels of the small vector, in the same
/// order.
#[verifier::external_body]
fn items_as_slice(list: &ChannelItems) -> (channels: &[ChannelDescription])
    ensures
        channels@ == channel_items(*list),
{
    list.items.as_slice()
}

/// The channels of an image, in the order in which the values of one sample
/// are stored.
#[derive(Debug, PartialEq, Eq)]
pub struct ChannelList {
    pub list: ChannelItems,
}

/// The number of bytes that the first `c` of the channels `types` take in one
/// sample: the position of channel `c` within the bytes of a sample.
pub open spec fn record_offset(types: Seq<SampleType>, c: int) -> int
    decreases c,
{
    if c <= 0 {
        0
    } else {
        record_offset(types, c - 1) + types[c - 1].width()
    }
}

/// The number of bytes that one sample takes on disk: one value per channel.
pub open spec fn record_width(types: Seq<SampleType>) -> int {
    record_offset(types, types.len() as int)
}

/// The position of a channel grows with its index, by at least two bytes per
/// channel and at most four.
pub proof fn lemma_record_offset_bounds(types: Seq<SampleType>, c: int)
    requires
        0 <= c <= types.len(),
    ensures
        2 * c <= record_offset(types, c) <= 4 * c,
    decreases c,
{
    if c > 0 {
        lemma_record_offset_bounds(types, c - 1);
    }
}

/// A channel ends where the next begins, and no channel reaches past the
/// sample.
pub proof fn lemma_record_offset_monotonic(types: Seq<SampleType>, c: int, d: int)
    requires
        0 <= c <= d <= types.len(),
    ensures
        record_offset(types, c) <= record_offset(types, d),
        c < d ==> record_offset(types, c) + types[c].width() <= record_offset(types, d),
    decreases d - c,
{
    if c < d {
        lemma_record_offset_monotonic(types, c, d - 1);
    }
}

impl ChannelList {
    /// The channels of the list, in order.
    pub open spec fn channels(&self) -> Seq<ChannelDescription> {
        channel_items(self.list)
    }

    /// The types of the channels, in order.
    pub open spec fn types(&self) -> Seq<SampleType> {
        Seq::new(self.channels().len(), |c: int| self.channels()[c].sample_type)
    }

    /// A channel list that holds the given channels in the given order.
    pub fn new(list: Vec<ChannelDescription>) -> (channels: Self)
        ensures
            channels.channels() == list@,
    {
        ChannelList { list: items_from_vec(list) }
    }

    /// The channels of the list, in order.
    pub fn as_slice(&self) -> (channels: &[ChannelDescription])
        ensures
            channels@ == self.channels(),
    {
        items_as_slice(&self.list)
    }

    /// The number of bytes that one sample takes on disk, or `None` where
    /// that number does not fit a `usize`.
    pub fn bytes_per_sample(&self) -> (n: Option<usize>)
        ensures
            match n {
                Some(n) => n == record_width(self.types()),
                None => record_width(self.types()) > usize::MAX,
            },
    {
        let list = self.as_slice();
        let mut total: usize = 0;
        let mut c: usize = 0;
        while c < list.len()
            invariant
                c <= list.len(),
                list@ == self.channels(),
                total == record_offset(self.types(), c as int),
            decreases list.len() - c,
        {
            let width = list[c].sample_type.bytes_per_sample();
            if total > usize::MAX - width {
                proof {
                    lemma_record_offset_monotonic(self.types(), c as int + 1, list.len() as int);
                }
                return None;
            }
            total = total + width;
            c = c + 1;
        }
        Some(total)
    }
}

} // verus!
