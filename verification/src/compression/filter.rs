//! The byte filter that is applied to a section before it is compressed.
//!
//! The bytes are reordered, so that the bytes at even positions come first
//! and those at odd positions after them. Then every byte but the first is
//! replaced by its difference to the byte before it. Sample values that
//! change slowly give long runs of equal bytes that way.

use vstd::prelude::*;

verus! {

/// The bytes that were given, where any were.
pub open spec fn bytes_of(bytes: Option<Vec<u8>>) -> Option<Seq<u8>> {
    match bytes {
        Some(bytes) => Some(bytes@),
        None => None,
    }
}

/// The number of bytes at even positions among `len` bytes.
pub open spec fn even_count(len: int) -> int {
    (len + 1) / 2
}

/// The bytes of `s` reordered: first those at even positions, then those at
/// odd positions.
pub open spec fn separated(s: Seq<u8>) -> Seq<u8> {
    Seq::new(
        s.len(),
        |k: int|
            if k < even_count(s.len() as int) {
                s[2 * k]
            } else {
                s[2 * (k - even_count(s.len() as int)) + 1]
            },
    )
}

/// The bytes of `s` put back in their places: the inverse of [`separated`].
pub open spec fn interleaved(s: Seq<u8>) -> Seq<u8> {
    Seq::new(
        s.len(),
        |i: int|
            if i % 2 == 0 {
                s[i / 2]
            } else {
                s[even_count(s.len() as int) + i / 2]
            },
    )
}

/// Putting reordered bytes back gives the bytes as they were.
pub proof fn lemma_interleaved_separated(s: Seq<u8>)
    ensures
        interleaved(separated(s)) == s,
{
    assert(interleaved(separated(s)) =~= s);
}

/// Reorders the bytes: first those at even positions, then those at odd
/// positions.
pub fn separate_bytes(data: &[u8]) -> (out: Vec<u8>)
    ensures
        out@ == separated(data@),
{
    let len = data.len();
    let half = len / 2 + len % 2;
    let mut out: Vec<u8> = Vec::with_capacity(len);
    let mut k: usize = 0;
    while k < len
        invariant
            k <= len,
            len == data@.len(),
            half == even_count(len as int),
            out@.len() == k,
            forall|j: int| 0 <= j < k ==> #[trigger] out@[j] == separated(data@)[j],
        decreases len - k,
    {
        if k < half {
            out.push(data[2 * k]);
        } else {
            out.push(data[2 * (k - half) + 1]);
        }
        k = k + 1;
    }
    assert(out@ =~= separated(data@));
    out
}

/// Puts reordered bytes back in their places.
pub fn interleave_bytes(data: &[u8]) -> (out: Vec<u8>)
    ensures
        out@ == interleaved(data@),
{
    let len = data.len();
    let half = len / 2 + len % 2;
    let mut out: Vec<u8> = Vec::with_capacity(len);
    let mut i: usize = 0;
    while i < len
        invariant
            i <= len,
            len == data@.len(),
            half == even_count(len as int),
            out@.len() == i,
            forall|j: int| 0 <= j < i ==> #[trigger] out@[j] == interleaved(data@)[j],
        decreases len - i,
    {
        if i % 2 == 0 {
            out.push(data[i / 2]);
        } else {
            out.push(data[half + i / 2]);
        }
        i = i + 1;
    }
    assert(out@ =~= interleaved(data@));
    out
}

/// The difference that stands for byte `now` after byte `before`.
pub open spec fn difference(before: u8, now: u8) -> u8 {
    ((now - before + 384) % 256) as u8
}

/// The byte that the difference `delta` stands for after byte `before`.
pub open spec fn sum(before: u8, delta: u8) -> u8 {
    ((before + delta + 128) % 256) as u8
}

/// The bytes of `s`, each but the first replaced by its difference to the
/// byte before it.
pub open spec fn differences(s: Seq<u8>) -> Seq<u8> {
    Seq::new(
        s.len(),
        |i: int|
            if i == 0 {
                s[0]
            } else {
                difference(s[i - 1], s[i])
            },
    )
}

/// Byte `i` of the bytes that the differences `d` stand for.
pub open spec fn restored_byte(d: Seq<u8>, i: int) -> u8
    decreases i,
{
    if i <= 0 {
        d[0]
    } else {
        sum(restored_byte(d, i - 1), d[i])
    }
}

/// The bytes that the differences `d` stand for: the inverse of
/// [`differences`].
pub open spec fn restored(d: Seq<u8>) -> Seq<u8> {
    Seq::new(d.len(), |i: int| restored_byte(d, i))
}

/// A byte and the difference that stands for the next give the next.
pub proof fn lemma_sum_of_difference(before: u8, now: u8)
    ensures
        sum(before, difference(before, now)) == now,
{
    let delta = now - before + 384;
    if delta < 256 {
        assert(delta % 256 == delta);
    } else if delta < 512 {
        assert(delta % 256 == delta - 256);
    } else {
        assert(delta % 256 == delta - 512);
    }
}

/// Byte `i` restored from the differences of `s` is byte `i` of `s`.
pub proof fn lemma_restored_byte(s: Seq<u8>, i: int)
    requires
        0 <= i < s.len(),
    ensures
        restored_byte(differences(s), i) == s[i],
    decreases i,
{
    if i > 0 {
        lemma_restored_byte(s, i - 1);
        lemma_sum_of_difference(s[i - 1], s[i]);
    }
}

/// Restoring the differences of some bytes gives the bytes as they were.
pub proof fn lemma_restored_differences(s: Seq<u8>)
    ensures
        restored(differences(s)) == s,
{
    assert forall|i: int| 0 <= i < s.len() implies restored(differences(s))[i] == s[i] by {
        lemma_restored_byte(s, i);
    }
    assert(restored(differences(s)) =~= s);
}

/// Replaces every byte but the first by its difference to the byte before.
pub fn to_differences(data: &[u8]) -> (out: Vec<u8>)
    ensures
        out@ == differences(data@),
{
    let len = data.len();
    let mut out: Vec<u8> = Vec::with_capacity(len);
    let mut i: usize = 0;
    while i < len
        invariant
            i <= len,
            len == data@.len(),
            out@.len() == i,
            forall|j: int| 0 <= j < i ==> #[trigger] out@[j] == differences(data@)[j],
        decreases len - i,
    {
        if i == 0 {
            out.push(data[0]);
        } else {
            let delta: u16 = (data[i] as u16 + 384 - data[i - 1] as u16) % 256;
            out.push(delta as u8);
        }
        i = i + 1;
    }
    assert(out@ =~= differences(data@));
    out
}

/// Replaces every difference by the byte that it stands for.
pub fn from_differences(data: &[u8]) -> (out: Vec<u8>)
    ensures
        out@ == restored(data@),
{
    let len = data.len();
    let mut out: Vec<u8> = Vec::with_capacity(len);
    let mut i: usize = 0;
    while i < len
        invariant
            i <= len,
            len == data@.len(),
            out@.len() == i,
            forall|j: int| 0 <= j < i ==> #[trigger] out@[j] == restored_byte(data@, j),
        decreases len - i,
    {
        if i == 0 {
            out.push(data[0]);
        } else {
            let byte: u16 = (out[i - 1] as u16 + data[i] as u16 + 128) % 256;
            out.push(byte as u8);
        }
        i = i + 1;
    }
    assert(out@ =~= restored(data@));
    out
}

/// The filtered form of a section: reordered, then turned into differences.
pub open spec fn filtered(s: Seq<u8>) -> Seq<u8> {
    differences(separated(s))
}

/// The section that a filtered form stands for: the inverse of [`filtered`].
pub open spec fn unfiltered(s: Seq<u8>) -> Seq<u8> {
    interleaved(restored(s))
}

/// Undoing the filter gives the section as it was.
pub proof fn lemma_unfiltered_filtered(s: Seq<u8>)
    ensures
        unfiltered(filtered(s)) == s,
{
    lemma_restored_differences(separated(s));
    lemma_interleaved_separated(s);
}

/// Applies the filter to a section.
pub fn filter_bytes(data: &[u8]) -> (out: Vec<u8>)
    ensures
        out@ == filtered(data@),
{
    let reordered = separate_bytes(data);
    to_differences(reordered.as_slice())
}

/// Undoes the filter.
pub fn unfilter_bytes(data: &[u8]) -> (out: Vec<u8>)
    ensures
        out@ == unfiltered(data@),
{
    let restored = from_differences(data);
    interleave_bytes(restored.as_slice())
}

} // verus!
