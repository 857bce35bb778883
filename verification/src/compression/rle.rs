//! Run-length compression as the file format defines it.
//!
//! The filtered section is cut into runs: a run of equal bytes is stored as
//! its length and the byte, any other run as its length and its bytes.

use crate::compression::filter::bytes_of;
use crate::compression::filter::filter_bytes;
use crate::compression::filter::filtered;
use crate::compression::filter::lemma_unfiltered_filtered;
use crate::compression::filter::unfilter_bytes;
use crate::compression::filter::unfiltered;
use vstd::prelude::*;

verus! {

/// A run of equal bytes is stored as a run only from this length on.
pub const MIN_RUN_LENGTH: usize = 3;

/// The longest run of unequal bytes. A run of equal bytes may be one longer.
pub const MAX_RUN_LENGTH: usize = 127;

/// `rest` with `prefix` in front of it, where there is a `rest`.
pub open spec fn prefixed(prefix: Seq<u8>, rest: Option<Seq<u8>>) -> Option<Seq<u8>> {
    match rest {
        Some(rest) => Some(prefix + rest),
        None => None,
    }
}

/// `n` copies of `value`.
pub open spec fn repeated(value: u8, n: int) -> Seq<u8> {
    Seq::new(n as nat, |i: int| value)
}

/// The `room` bytes that the runs in `c` stand for, or `None` where `c` does
/// not hold runs for exactly `room` bytes.
///
/// A run starts with a header byte. A header below 128 is followed by one
/// byte, which the run repeats one time more than the header says. A header
/// `h` from 128 on is followed by `256 - h` bytes, which the run holds as
/// they are. Runs that stand for more than `room` bytes are refused, and so
/// is input that ends within a run or before `room` bytes are reached. Bytes
/// that follow the last run are refused only in pedantic mode.
pub open spec fn expanded(c: Seq<u8>, room: int, pedantic: bool) -> Option<Seq<u8>>
    decreases c.len(),
{
    if room <= 0 {
        if pedantic && c.len() > 0 {
            None
        } else {
            Some(Seq::empty())
        }
    } else if c.len() == 0 {
        None
    } else if c[0] >= 128 {
        let n = 256 - c[0];
        if 1 + n > c.len() || n > room {
            None
        } else {
            prefixed(c.subrange(1, 1 + n), expanded(c.skip(1 + n), room - n, pedantic))
        }
    } else {
        let n = c[0] + 1;
        if 2 > c.len() || n > room {
            None
        } else {
            prefixed(repeated(c[1], n), expanded(c.skip(2), room - n, pedantic))
        }
    }
}

/// What expands in pedantic mode expands to the same bytes in lenient mode.
pub proof fn lemma_expanded_lenient(c: Seq<u8>, room: int, d: Seq<u8>)
    requires
        expanded(c, room, true) == Some(d),
    ensures
        expanded(c, room, false) == Some(d),
    decreases c.len(),
{
    if room > 0 && c.len() > 0 {
        if c[0] >= 128 {
            let n = 256 - c[0];
            let rest = expanded(c.skip(1 + n), room - n, true);
            lemma_expanded_lenient(c.skip(1 + n), room - n, rest->0);
        } else {
            let n = c[0] + 1;
            let rest = expanded(c.skip(2), room - n, true);
            lemma_expanded_lenient(c.skip(2), room - n, rest->0);
        }
    }
}

/// Expands runs into the `expected` bytes that they stand for.
pub fn expand_runs(compressed: &[u8], expected: usize, pedantic: bool) -> (out: Option<Vec<u8>>)
    ensures
        bytes_of(out) == expanded(compressed@, expected as int, pedantic),
{
    let len = compressed.len();
    let ghost c = compressed@;
    let mut out: Vec<u8> = Vec::new();
    let mut pos: usize = 0;
    proof {
        assert(c.skip(0) =~= c);
        assert(match expanded(c, expected as int, pedantic) {
            Some(all) => Seq::<u8>::empty() + all =~= all,
            None => true,
        });
    }
    while out.len() < expected
        invariant
            c == compressed@,
            len == c.len(),
            pos <= len,
            out@.len() <= expected,
            expanded(c, expected as int, pedantic) == prefixed(
                out@,
                expanded(c.skip(pos as int), expected - out@.len(), pedantic),
            ),
        decreases expected - out@.len(),
    {
        let room = expected - out.len();
        let ghost rest = c.skip(pos as int);
        let ghost before = out@;
        if pos >= len {
            return None;
        }
        let header = compressed[pos];
        assert(rest[0] == header);
        if header >= 128 {
            let n: usize = 256 - header as usize;
            if n > len - pos - 1 || n > room {
                return None;
            }
            let mut i: usize = 0;
            while i < n
                invariant
                    i <= n,
                    c == compressed@,
                    len == c.len(),
                    pos + 1 + n <= len,
                    out@ == before + c.subrange(pos + 1, pos + 1 + i),
                decreases n - i,
            {
                out.push(compressed[pos + 1 + i]);
                assert(out@ =~= before + c.subrange(pos + 1, pos + 1 + i + 1));
                i = i + 1;
            }
            proof {
                let run = rest.subrange(1, 1 + n);
                assert(run =~= c.subrange(pos + 1, pos + 1 + n));
                assert(rest.skip(1 + n) =~= c.skip(pos + 1 + n));
                let after = expanded(c.skip(pos + 1 + n), room - n, pedantic);
                assert(match after {
                    Some(after) => before + (run + after) =~= (before + run) + after,
                    None => true,
                });
            }
            pos = pos + 1 + n;
        } else {
            let n: usize = header as usize + 1;
            if len - pos < 2 || n > room {
                return None;
            }
            let value = compressed[pos + 1];
            assert(rest[1] == value);
            let mut i: usize = 0;
            while i < n
                invariant
                    i <= n,
                    out@ == before + repeated(value, i as int),
                decreases n - i,
            {
                out.push(value);
                assert(out@ =~= before + repeated(value, i + 1));
                i = i + 1;
            }
            proof {
                let run = repeated(value, n as int);
                assert(rest.skip(2) =~= c.skip(pos + 2));
                let after = expanded(c.skip(pos + 2), room - n, pedantic);
                assert(match after {
                    Some(after) => before + (run + after) =~= (before + run) + after,
                    None => true,
                });
            }
            pos = pos + 2;
        }
    }
    if pedantic && pos < len {
        return None;
    }
    proof {
        assert(out@ + Seq::<u8>::empty() =~= out@);
    }
    Some(out)
}

/// Where the run of bytes equal to the byte at `start` ends, when it is known
/// to reach `end`: at the first byte that differs, at the end of the bytes,
/// or after 128 bytes.
pub open spec fn equal_run_end(d: Seq<u8>, start: int, end: int) -> int
    decreases d.len() - end,
{
    if end < d.len() && d[start] == d[end] && end - start - 1 < MAX_RUN_LENGTH {
        equal_run_end(d, start, end + 1)
    } else {
        end
    }
}

/// Where the run of unequal bytes that starts at `start` ends, when it is
/// known to reach `end`: where three equal bytes begin, at the end of the
/// bytes, or after 127 bytes.
pub open spec fn unequal_run_end(d: Seq<u8>, start: int, end: int) -> int
    decreases d.len() - end,
{
    if end < d.len() && ((end + 1 >= d.len() || d[end] != d[end + 1]) || (end + 2 >= d.len()
        || d[end + 1] != d[end + 2])) && end - start < MAX_RUN_LENGTH {
        unequal_run_end(d, start, end + 1)
    } else {
        end
    }
}

/// The runs that the bytes from `start` on are cut into.
///
/// Three or more equal bytes become a run of equal bytes, of at most 128
/// bytes. What lies between such runs is held as it is, in runs of at most
/// 127 bytes.
pub open spec fn packed_from(d: Seq<u8>, start: int) -> Seq<u8>
    decreases d.len() - start,
{
    if start < 0 || start >= d.len() {
        Seq::empty()
    } else {
        let equal_end = equal_run_end(d, start, start + 1);
        let unequal_end = unequal_run_end(d, start, equal_end);
        proof {
            lemma_equal_run_end(d, start, start + 1);
            lemma_unequal_run_end(d, start, equal_end);
        }
        if equal_end - start >= MIN_RUN_LENGTH {
            seq![(equal_end - start - 1) as u8, d[start]] + packed_from(d, equal_end)
        } else {
            seq![(256 - (unequal_end - start)) as u8] + d.subrange(start, unequal_end)
                + packed_from(d, unequal_end)
        }
    }
}

/// The runs that bytes are cut into.
pub open spec fn packed(d: Seq<u8>) -> Seq<u8> {
    packed_from(d, 0)
}

/// A run of equal bytes ends within the bytes, holds at most 128 bytes, and
/// holds equal bytes only.
pub proof fn lemma_equal_run_end(d: Seq<u8>, start: int, end: int)
    requires
        0 <= start < end <= d.len(),
        end - start <= MAX_RUN_LENGTH + 1,
        forall|j: int| start <= j < end ==> d[j] == d[start],
    ensures
        end <= equal_run_end(d, start, end) <= d.len(),
        equal_run_end(d, start, end) - start <= MAX_RUN_LENGTH + 1,
        forall|j: int| start <= j < equal_run_end(d, start, end) ==> d[j] == d[start],
    decreases d.len() - end,
{
    if end < d.len() && d[start] == d[end] && end - start - 1 < MAX_RUN_LENGTH {
        lemma_equal_run_end(d, start, end + 1);
    }
}

/// A run of unequal bytes ends within the bytes and holds at most 127 bytes.
pub proof fn lemma_unequal_run_end(d: Seq<u8>, start: int, end: int)
    requires
        0 <= start < end <= d.len(),
    ensures
        end <= unequal_run_end(d, start, end) <= d.len(),
        end - start <= MAX_RUN_LENGTH ==> unequal_run_end(d, start, end) - start
            <= MAX_RUN_LENGTH,
    decreases d.len() - end,
{
    if end < d.len() && ((end + 1 >= d.len() || d[end] != d[end + 1]) || (end + 2 >= d.len()
        || d[end + 1] != d[end + 2])) && end - start < MAX_RUN_LENGTH {
        lemma_unequal_run_end(d, start, end + 1);
    }
}

/// The runs that bytes are cut into expand to the bytes again.
pub proof fn lemma_expanded_packed_from(d: Seq<u8>, start: int)
    requires
        0 <= start <= d.len(),
    ensures
        expanded(packed_from(d, start), d.len() - start, true) == Some(d.skip(start)),
    decreases d.len() - start,
{
    let runs = packed_from(d, start);
    if start == d.len() {
        assert(d.skip(start) =~= Seq::<u8>::empty());
    } else {
        let equal_end = equal_run_end(d, start, start + 1);
        let unequal_end = unequal_run_end(d, start, equal_end);
        lemma_equal_run_end(d, start, start + 1);
        lemma_unequal_run_end(d, start, equal_end);
        if equal_end - start >= MIN_RUN_LENGTH {
            let n = equal_end - start;
            let rest = packed_from(d, equal_end);
            lemma_expanded_packed_from(d, equal_end);
            assert(runs == seq![(n - 1) as u8, d[start]] + rest);
            assert(runs[0] == (n - 1) as u8);
            assert(runs[1] == d[start]);
            assert(runs.skip(2) =~= rest);
            assert(repeated(d[start], n) + d.skip(equal_end) =~= d.skip(start));
        } else {
            let n = unequal_end - start;
            let rest = packed_from(d, unequal_end);
            lemma_expanded_packed_from(d, unequal_end);
            assert(runs == seq![(256 - n) as u8] + d.subrange(start, unequal_end) + rest);
            assert(runs[0] == (256 - n) as u8);
            assert(runs.subrange(1, 1 + n) =~= d.subrange(start, unequal_end));
            assert(runs.skip(1 + n) =~= rest);
            assert(d.subrange(start, unequal_end) + d.skip(unequal_end) =~= d.skip(start));
        }
    }
}

/// The runs that bytes are cut into expand to the bytes again, in either
/// mode.
pub proof fn lemma_expanded_packed(d: Seq<u8>, pedantic: bool)
    ensures
        expanded(packed(d), d.len() as int, pedantic) == Some(d),
{
    lemma_expanded_packed_from(d, 0);
    assert(d.skip(0) =~= d);
    lemma_expanded_lenient(packed(d), d.len() as int, d);
}

/// Cuts bytes into runs.
pub fn pack_runs(data: &[u8]) -> (out: Vec<u8>)
    ensures
        out@ == packed(data@),
{
    let len = data.len();
    let ghost d = data@;
    let mut out: Vec<u8> = Vec::new();
    let mut run_start: usize = 0;
    proof {
        assert(out@ + packed_from(d, 0) =~= packed(d));
    }
    while run_start < len
        invariant
            d == data@,
            len == d.len(),
            run_start <= len,
            out@ + packed_from(d, run_start as int) == packed(d),
        decreases len - run_start,
    {
        let ghost before = out@;
        let ghost equal_end = equal_run_end(d, run_start as int, run_start + 1);
        let mut run_end: usize = run_start + 1;
        while run_end < len && data[run_start] == data[run_end] && run_end - run_start - 1
            < MAX_RUN_LENGTH
            invariant
                d == data@,
                len == d.len(),
                run_start < run_end <= len,
                run_end - run_start <= MAX_RUN_LENGTH + 1,
                equal_run_end(d, run_start as int, run_end as int) == equal_end,
            decreases len - run_end,
        {
            run_end = run_end + 1;
        }
        assert(run_end == equal_end);
        let ghost unequal_end = unequal_run_end(d, run_start as int, equal_end);
        if run_end - run_start >= MIN_RUN_LENGTH {
            let n = run_end - run_start;
            out.push((n - 1) as u8);
            out.push(data[run_start]);
            proof {
                let run = seq![(n - 1) as u8, d[run_start as int]];
                let rest = packed_from(d, run_end as int);
                assert(out@ =~= before + run);
                assert((before + run) + rest =~= before + (run + rest));
            }
        } else {
            while run_end < len && ((run_end + 1 >= len || data[run_end] != data[run_end + 1]) || (
            run_end + 2 >= len || data[run_end + 1] != data[run_end + 2])) && run_end - run_start
                < MAX_RUN_LENGTH
                invariant
                    d == data@,
                    len == d.len(),
                    run_start < run_end <= len,
                    run_end - run_start <= MAX_RUN_LENGTH,
                    unequal_run_end(d, run_start as int, run_end as int) == unequal_end,
                decreases len - run_end,
            {
                run_end = run_end + 1;
            }
            assert(run_end == unequal_end);
            let n = run_end - run_start;
            out.push((256 - n) as u8);
            let mut i: usize = run_start;
            while i < run_end
                invariant
                    d == data@,
                    run_start <= i <= run_end <= d.len(),
                    n == run_end - run_start,
                    out@ == before + seq![(256 - n) as u8] + d.subrange(run_start as int, i as int),
                decreases run_end - i,
            {
                out.push(data[i]);
                assert(out@ =~= before + seq![(256 - n) as u8] + d.subrange(
                    run_start as int,
                    i + 1,
                ));
                i = i + 1;
            }
            proof {
                let run = seq![(256 - n) as u8] + d.subrange(run_start as int, run_end as int);
                let rest = packed_from(d, run_end as int);
                assert(out@ =~= before + run);
                assert((before + run) + rest =~= before + (run + rest));
            }
        }
        run_start = run_end;
    }
    proof {
        assert(out@ + Seq::<u8>::empty() =~= out@);
    }
    out
}

/// The compressed form of a section: the runs of its filtered form.
pub open spec fn compressed(data: Seq<u8>) -> Seq<u8> {
    packed(filtered(data))
}

/// The bytes that a compressed section stands for, or `None` where it does
/// not stand for exactly `expected` bytes.
pub open spec fn decompressed(c: Seq<u8>, expected: int, pedantic: bool) -> Option<Seq<u8>> {
    match expanded(c, expected, pedantic) {
        Some(runs) => Some(unfiltered(runs)),
        None => None,
    }
}

/// Decompressing the compressed form of a section gives the section back, in
/// either mode.
pub proof fn lemma_decompressed_compressed(data: Seq<u8>, pedantic: bool)
    ensures
        decompressed(compressed(data), data.len() as int, pedantic) == Some(data),
{
    lemma_expanded_packed(filtered(data), pedantic);
    lemma_unfiltered_filtered(data);
}

/// Decompresses a section of `expected` bytes.
pub fn decompress_bytes(
    compressed: &[u8],
    expected: usize,
    pedantic: bool,
) -> (out: Option<Vec<u8>>)
    ensures
        bytes_of(out) == decompressed(compressed@, expected as int, pedantic),
{
    match expand_runs(compressed, expected, pedantic) {
        Some(runs) => Some(unfilter_bytes(runs.as_slice())),
        None => None,
    }
}

/// Compresses a section.
pub fn compress_bytes(data: &[u8]) -> (out: Vec<u8>)
    ensures
        out@ == compressed(data@),
{
    let filtered = filter_bytes(data);
    pack_runs(filtered.as_slice())
}

} // verus!
