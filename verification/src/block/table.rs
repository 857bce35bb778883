//! The two offset tables of a deep block, and the conversion between them.
//!
//! On disk a block holds one signed 32-bit entry per pixel: the number of
//! samples in the pixel's scan line up to and including that pixel, so the
//! count starts again at every line. In memory a block holds one unsigned
//! entry more than it has pixels: the number of samples in all the pixels
//! before each position, counted over the whole block.
//!
//! For a block 3 pixels wide and 2 lines high with the sample counts
//! `[2, 1, 3]` and `[0, 2, 1]`, the table on disk is `[2, 3, 6, 0, 2, 3]` and
//! the offsets in memory are `[0, 2, 3, 6, 6, 8, 9]`.

use crate::error::Error;
use vstd::arithmetic::div_mod::lemma_fundamental_div_mod;
use vstd::arithmetic::div_mod::lemma_fundamental_div_mod_converse;
use vstd::arithmetic::div_mod::lemma_mod_bound;
use vstd::arithmetic::div_mod::lemma_small_mod;
use vstd::arithmetic::mul::lemma_mul_is_commutative;
use vstd::arithmetic::mul::lemma_mul_is_distributive_add;
use vstd::prelude::*;

verus! {

/// The index of the first pixel of the line that holds pixel `i`.
pub open spec fn line_start(width: int, i: int) -> int {
    i - i % width
}

/// What makes a table on disk acceptable: one entry per pixel, no entry
/// negative, and no entry smaller than the one before it in the same line.
pub open spec fn disk_table_valid(table: Seq<i32>, width: int, height: int) -> bool {
    &&& table.len() == width * height
    &&& forall|i: int| 0 <= i < table.len() ==> 0 <= #[trigger] table[i]
    &&& forall|i: int|
        0 < i < table.len() && i % width != 0 ==> table[i - 1] <= #[trigger] table[i]
}

/// The number of samples of pixel `i`, read from the table on disk.
pub open spec fn sample_count(table: Seq<i32>, width: int, i: int) -> int {
    if i % width == 0 {
        table[i] as int
    } else {
        table[i] - table[i - 1]
    }
}

/// The number of samples in the first `k` pixels of the block, read from the
/// table on disk.
pub open spec fn samples_before(table: Seq<i32>, width: int, k: int) -> int
    decreases k,
{
    if k <= 0 {
        0
    } else {
        samples_before(table, width, k - 1) + sample_count(table, width, k - 1)
    }
}

/// What makes the offsets in memory acceptable: one entry more than there are
/// pixels, the first entry zero, and no entry smaller than the one before.
pub open spec fn pixel_offsets_valid(offsets: Seq<u32>, width: int, height: int) -> bool {
    &&& offsets.len() == width * height + 1
    &&& offsets[0] == 0
    &&& forall|i: int| 0 < i < offsets.len() ==> offsets[i - 1] <= #[trigger] offsets[i]
}

/// The entry of pixel `i` in the table on disk, computed from the offsets in
/// memory: the samples from the start of the pixel's line to its own end.
pub open spec fn disk_entry(offsets: Seq<u32>, width: int, i: int) -> int {
    offsets[i + 1] - offsets[line_start(width, i)]
}

/// Whether every entry of the table on disk fits a signed 32-bit integer. The
/// last entry of a line is the line's total, and the largest of the line.
pub open spec fn disk_entries_fit(offsets: Seq<u32>, width: int) -> bool {
    forall|i: int|
        0 <= i < offsets.len() - 1 ==> #[trigger] disk_entry(offsets, width, i) <= i32::MAX
}

/// The table on disk that belongs to the given offsets in memory.
pub open spec fn disk_table_of(offsets: Seq<u32>, width: int) -> Seq<i32> {
    Seq::new((offsets.len() - 1) as nat, |i: int| disk_entry(offsets, width, i) as i32)
}

/// The offsets in memory that belong to the given table on disk.
pub open spec fn pixel_offsets_of(table: Seq<i32>, width: int) -> Seq<u32> {
    Seq::new(table.len() + 1, |k: int| samples_before(table, width, k) as u32)
}

/// A block that has a pixel has a width.
pub proof fn lemma_pixels_need_width(width: int, height: int)
    ensures
        width * height != 0 ==> width != 0,
{
    assert(width == 0 ==> width * height == 0) by (nonlinear_arith);
}

/// From one pixel to the next the start of the line stays where it is, unless
/// the next pixel opens a line of its own.
pub proof fn lemma_line_start_step(width: int, i: int)
    requires
        0 < width,
        0 <= i,
    ensures
        0 <= line_start(width, i) <= i,
        (i + 1) % width != 0 ==> line_start(width, i + 1) == line_start(width, i),
        (i + 1) % width == 0 ==> line_start(width, i + 1) == i + 1,
        i % width == 0 ==> line_start(width, i) == i,
{
    lemma_mod_bound(i, width);
    lemma_mod_bound(i + 1, width);
    lemma_fundamental_div_mod(i, width);
    let q = i / width;
    let r = i % width;
    lemma_mul_is_commutative(width, q);
    if r + 1 < width {
        lemma_fundamental_div_mod_converse(i + 1, width, q, r + 1);
    } else {
        lemma_mul_is_distributive_add(width, q, 1);
        lemma_mul_is_commutative(width, q + 1);
        lemma_fundamental_div_mod_converse(i + 1, width, q + 1, 0);
    }
}

/// A table in which an entry is smaller than the one before it in the same
/// line is not acceptable: checking it and converting it both fail.
pub proof fn lemma_decreasing_pair_is_malformed(table: Seq<i32>, width: int, height: int, i: int)
    requires
        0 < i < table.len(),
        i % width != 0,
        table[i] < table[i - 1],
    ensures
        !disk_table_valid(table, width, height),
{
}

/// In an acceptable table no pixel has a negative number of samples, so the
/// running total never falls.
pub proof fn lemma_samples_before_monotonic(table: Seq<i32>, width: int, k: int, m: int)
    requires
        0 < width,
        forall|i: int| 0 <= i < table.len() ==> 0 <= #[trigger] table[i],
        forall|i: int|
            0 < i < table.len() && i % width != 0 ==> table[i - 1] <= #[trigger] table[i],
        0 <= k <= m <= table.len(),
    ensures
        0 <= samples_before(table, width, k) <= samples_before(table, width, m),
    decreases m,
{
    if m > 0 {
        lemma_samples_before_monotonic(table, width, if k < m { k } else { k - 1 }, m - 1);
        lemma_small_mod(0, width as nat);
        assert(0 <= table[m - 1]);
        assert(0 <= sample_count(table, width, m - 1));
    }
}

/// Whether a table of `len` entries has one entry for each pixel of a block
/// of the given extents.
pub(crate) fn has_one_entry_per_pixel(len: usize, width: usize, height: usize) -> (fits: bool)
    ensures
        fits <==> len == width * height,
{
    match width.checked_mul(height) {
        Some(pixels) => pixels == len,
        None => false,
    }
}

/// Checks a table as it comes out of decompression: one entry per pixel, no
/// entry negative, no entry smaller than the one before it in its line.
pub fn validate_sample_table(
    table: &Vec<i32>,
    width: usize,
    height: usize,
) -> (result: Result<(), Error>)
    ensures
        result is Ok <==> disk_table_valid(table@, width as int, height as int),
        result is Err ==> result == Err::<(), Error>(Error::Malformed),
{
    if !has_one_entry_per_pixel(table.len(), width, height) {
        return Err(Error::Malformed);
    }
    let mut i: usize = 0;
    while i < table.len()
        invariant
            i <= table.len(),
            table.len() == width * height,
            forall|j: int| 0 <= j < i ==> 0 <= #[trigger] table[j],
            forall|j: int|
                0 < j < i && j % (width as int) != 0 ==> table[j - 1] <= #[trigger] table[j],
        decreases table.len() - i,
    {
        proof {
            lemma_pixels_need_width(width as int, height as int);
            lemma_small_mod(0, width as nat);
        }
        if table[i] < 0 {
            return Err(Error::Malformed);
        }
        if i % width != 0 && table[i] < table[i - 1] {
            return Err(Error::Malformed);
        }
        i = i + 1;
    }
    Ok(())
}

/// Turns the table on disk into the offsets in memory.
///
/// The table is refused as malformed unless it is acceptable and the block
/// holds no more than `i32::MAX` samples in all.
pub fn disk_table_to_pixel_offsets(
    table: &Vec<i32>,
    width: usize,
    height: usize,
) -> (result: Result<Vec<u32>, Error>)
    ensures
        result is Ok <==> disk_table_valid(table@, width as int, height as int) && samples_before(
            table@,
            width as int,
            table@.len() as int,
        ) <= i32::MAX,
        result is Err ==> result->Err_0 == Error::Malformed,
        result is Ok ==> result->Ok_0@ == pixel_offsets_of(table@, width as int),
{
    if !has_one_entry_per_pixel(table.len(), width, height) {
        return Err(Error::Malformed);
    }
    let ghost w = width as int;
    let mut offsets: Vec<u32> = Vec::new();
    offsets.push(0);
    let mut total: u32 = 0;
    let mut i: usize = 0;
    while i < table.len()
        invariant
            i <= table.len(),
            w == width as int,
            table.len() == width * height,
            forall|j: int| 0 <= j < i ==> 0 <= #[trigger] table[j],
            forall|j: int| 0 < j < i && j % w != 0 ==> table[j - 1] <= #[trigger] table[j],
            total == samples_before(table@, w, i as int),
            total <= i32::MAX,
            offsets@.len() == i + 1,
            forall|k: int| 0 <= k <= i ==> #[trigger] offsets@[k] == samples_before(table@, w, k),
        decreases table.len() - i,
    {
        proof {
            lemma_pixels_need_width(width as int, height as int);
            lemma_small_mod(0, width as nat);
        }
        let entry = table[i];
        if entry < 0 {
            return Err(Error::Malformed);
        }
        let count: u32 = if i % width == 0 {
            entry as u32
        } else {
            let before = table[i - 1];
            if entry < before {
                return Err(Error::Malformed);
            }
            (entry - before) as u32
        };
        assert(count == sample_count(table@, w, i as int));
        if count > 0x7fff_ffff - total {
            proof {
                if disk_table_valid(table@, w, height as int) {
                    lemma_samples_before_monotonic(table@, w, i as int + 1, table@.len() as int);
                }
            }
            return Err(Error::Malformed);
        }
        total = total + count;
        offsets.push(total);
        i = i + 1;
    }
    Ok(offsets)
}

/// Offsets that never fall from one entry to the next never fall at all.
pub proof fn lemma_offsets_monotonic(offsets: Seq<u32>, a: int, b: int)
    requires
        forall|i: int| 0 < i < offsets.len() ==> offsets[i - 1] <= #[trigger] offsets[i],
        0 <= a <= b < offsets.len(),
    ensures
        offsets[a] <= offsets[b],
    decreases b - a,
{
    if a < b {
        lemma_offsets_monotonic(offsets, a, b - 1);
        assert(offsets[b - 1] <= offsets[b]);
    }
}

/// Checks offsets in memory: one entry more than there are pixels, the first
/// entry zero, no entry smaller than the one before.
pub fn validate_pixel_offsets(offsets: &Vec<u32>, width: usize, height: usize) -> (valid: bool)
    ensures
        valid <==> pixel_offsets_valid(offsets@, width as int, height as int),
{
    if offsets.len() == 0 || !has_one_entry_per_pixel(offsets.len() - 1, width, height) {
        return false;
    }
    if offsets[0] != 0 {
        return false;
    }
    let mut i: usize = 1;
    while i < offsets.len()
        invariant
            1 <= i <= offsets.len(),
            forall|j: int| 0 < j < i ==> offsets[j - 1] <= #[trigger] offsets[j],
        decreases offsets.len() - i,
    {
        if offsets[i] < offsets[i - 1] {
            return false;
        }
        i = i + 1;
    }
    true
}

/// Turns the offsets in memory into the table on disk.
///
/// Offsets that are not acceptable are refused as malformed. Acceptable ones
/// are refused with `Overflow` where a line holds more than `i32::MAX`
/// samples, since the table could not hold that line's total.
pub fn pixel_offsets_to_disk_table(
    pixel_offsets: &Vec<u32>,
    width: usize,
    height: usize,
) -> (result: Result<Vec<i32>, Error>)
    ensures
        result is Ok <==> pixel_offsets_valid(pixel_offsets@, width as int, height as int)
            && disk_entries_fit(pixel_offsets@, width as int),
        result is Err ==> result->Err_0 == (if pixel_offsets_valid(
            pixel_offsets@,
            width as int,
            height as int,
        ) {
            Error::Overflow
        } else {
            Error::Malformed
        }),
        result is Ok ==> result->Ok_0@ == disk_table_of(pixel_offsets@, width as int),
{
    if !validate_pixel_offsets(pixel_offsets, width, height) {
        return Err(Error::Malformed);
    }
    let ghost w = width as int;
    let pixels = pixel_offsets.len() - 1;
    let mut table: Vec<i32> = Vec::new();
    let mut row_start: usize = 0;
    let mut i: usize = 0;
    proof {
        lemma_pixels_need_width(width as int, height as int);
        if width > 0 {
            lemma_small_mod(0, width as nat);
        }
    }
    while i < pixels
        invariant
            i <= pixels,
            pixels == pixel_offsets.len() - 1,
            w == width as int,
            pixel_offsets_valid(pixel_offsets@, w, height as int),
            i < pixels ==> 0 < width && row_start == line_start(w, i as int),
            table@.len() == i,
            forall|j: int| 0 <= j < i ==> #[trigger] table@[j] == disk_entry(pixel_offsets@, w, j),
        decreases pixels - i,
    {
        proof {
            lemma_line_start_step(w, i as int);
            lemma_offsets_monotonic(pixel_offsets@, row_start as int, i as int + 1);
        }
        let entry = pixel_offsets[i + 1] - pixel_offsets[row_start];
        if entry > 0x7fff_ffff {
            assert(disk_entry(pixel_offsets@, w, i as int) > i32::MAX);
            return Err(Error::Overflow);
        }
        table.push(entry as i32);
        i = i + 1;
        if i < pixels && i % width == 0 {
            row_start = i;
        }
    }
    proof {
        assert forall|j: int| 0 <= j < pixels implies #[trigger] disk_entry(pixel_offsets@, w, j)
            <= i32::MAX by {
            assert(table@[j] == disk_entry(pixel_offsets@, w, j));
        }
        assert(table@ =~= disk_table_of(pixel_offsets@, w));
    }
    Ok(table)
}

/// Offsets in memory survive the way to disk and back: where a block holds
/// no more than `i32::MAX` samples, its offsets give an acceptable table, and
/// that table gives the same offsets again.
pub proof fn lemma_pixel_offsets_roundtrip(offsets: Seq<u32>, width: int, height: int)
    requires
        0 <= width,
        0 <= height,
        pixel_offsets_valid(offsets, width, height),
        offsets.last() <= i32::MAX,
    ensures
        disk_entries_fit(offsets, width),
        disk_table_valid(disk_table_of(offsets, width), width, height),
        samples_before(disk_table_of(offsets, width), width, width * height) <= i32::MAX,
        pixel_offsets_of(disk_table_of(offsets, width), width) == offsets,
{
    let table = disk_table_of(offsets, width);
    let n = offsets.len() - 1;
    lemma_pixels_need_width(width, height);
    assert forall|i: int| 0 <= i < n implies 0 <= #[trigger] disk_entry(offsets, width, i)
        && disk_entry(offsets, width, i) <= i32::MAX by {
        lemma_line_start_step(width, i);
        lemma_offsets_monotonic(offsets, line_start(width, i), i + 1);
        lemma_offsets_monotonic(offsets, i + 1, n);
    }
    assert forall|i: int|
        0 < i < n && i % width != 0 implies table[i - 1] <= #[trigger] table[i] by {
        lemma_line_start_step(width, i - 1);
        assert(0 <= disk_entry(offsets, width, i - 1) <= i32::MAX);
        assert(0 <= disk_entry(offsets, width, i) <= i32::MAX);
        assert(offsets[i] <= offsets[i + 1]);
    }
    assert forall|i: int| 0 <= i < n implies 0 <= #[trigger] table[i] by {
        assert(0 <= disk_entry(offsets, width, i) <= i32::MAX);
    }
    lemma_samples_before_of_disk_table(offsets, width, n);
    assert(pixel_offsets_of(table, width) =~= offsets) by {
        assert forall|k: int| 0 <= k <= n implies #[trigger] samples_before(table, width, k)
            == offsets[k] by {
            lemma_samples_before_of_disk_table(offsets, width, k);
        }
    }
}

/// The running total read from the table of some offsets is the offset
/// itself.
proof fn lemma_samples_before_of_disk_table(offsets: Seq<u32>, width: int, k: int)
    requires
        offsets.len() > 0,
        offsets[0] == 0,
        forall|i: int| 0 < i < offsets.len() ==> offsets[i - 1] <= #[trigger] offsets[i],
        offsets.last() <= i32::MAX,
        0 <= k < offsets.len(),
        k > 0 ==> width > 0,
    ensures
        samples_before(disk_table_of(offsets, width), width, k) == offsets[k],
    decreases k,
{
    if k > 0 {
        let table = disk_table_of(offsets, width);
        let n = offsets.len() - 1;
        let i = k - 1;
        lemma_samples_before_of_disk_table(offsets, width, i);
        lemma_small_mod(0, width as nat);
        lemma_line_start_step(width, i);
        lemma_offsets_monotonic(offsets, line_start(width, i), i + 1);
        lemma_offsets_monotonic(offsets, i + 1, n);
        assert(table[i] == disk_entry(offsets, width, i));
        if i % width != 0 {
            lemma_line_start_step(width, i - 1);
            lemma_offsets_monotonic(offsets, line_start(width, i - 1), i);
            lemma_offsets_monotonic(offsets, i, n);
            assert(table[i - 1] == disk_entry(offsets, width, i - 1));
        }
    }
}

/// A table on disk survives the way to memory and back: where it is
/// acceptable and counts no more than `i32::MAX` samples, its offsets are
/// acceptable, and they give the same table again.
pub proof fn lemma_disk_table_roundtrip(table: Seq<i32>, width: int, height: int)
    requires
        0 <= width,
        0 <= height,
        disk_table_valid(table, width, height),
        samples_before(table, width, table.len() as int) <= i32::MAX,
    ensures
        pixel_offsets_valid(pixel_offsets_of(table, width), width, height),
        disk_entries_fit(pixel_offsets_of(table, width), width),
        disk_table_of(pixel_offsets_of(table, width), width) == table,
{
    let offsets = pixel_offsets_of(table, width);
    let n = table.len() as int;
    lemma_pixels_need_width(width, height);
    assert forall|k: int| 0 <= k <= n implies 0 <= #[trigger] samples_before(table, width, k)
        && samples_before(table, width, k) <= i32::MAX by {
        if width > 0 {
            lemma_samples_before_monotonic(table, width, k, n);
        }
    }
    assert forall|i: int| 0 < i < offsets.len() implies offsets[i - 1] <= #[trigger] offsets[i] by {
        assert(width > 0);
        lemma_samples_before_monotonic(table, width, i - 1, i);
        assert(0 <= samples_before(table, width, i - 1) <= i32::MAX);
        assert(0 <= samples_before(table, width, i) <= i32::MAX);
    }
    assert forall|i: int| 0 <= i < n implies #[trigger] disk_entry(offsets, width, i)
        == table[i] by {
        lemma_disk_entry_of_pixel_offsets(table, width, i);
        lemma_line_start_step(width, i);
        assert(0 <= samples_before(table, width, i + 1) <= i32::MAX);
        assert(0 <= samples_before(table, width, line_start(width, i)) <= i32::MAX);
    }
    assert(disk_table_of(offsets, width) =~= table);
}

/// Within a line the running total grows by exactly what the table says: the
/// samples from the start of the line to the end of pixel `i` are the entry
/// of pixel `i`.
proof fn lemma_disk_entry_of_pixel_offsets(table: Seq<i32>, width: int, i: int)
    requires
        0 < width,
        0 <= i < table.len(),
    ensures
        samples_before(table, width, i + 1) - samples_before(table, width, line_start(width, i))
            == table[i],
    decreases i,
{
    lemma_small_mod(0, width as nat);
    lemma_line_start_step(width, i);
    if i % width != 0 {
        lemma_line_start_step(width, i - 1);
        lemma_disk_entry_of_pixel_offsets(table, width, i - 1);
    }
}

} // verus!
