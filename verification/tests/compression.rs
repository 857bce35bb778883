use exr_deep::compression::compress_section;
use exr_deep::compression::decompress_section;
use exr_deep::compression::deep::compress_sample_data;
use exr_deep::compression::deep::compress_sample_table;
use exr_deep::compression::deep::decompress_sample_data;
use exr_deep::compression::deep::decompress_sample_table;
use exr_deep::compression::filter::filter_bytes;
use exr_deep::compression::filter::from_differences;
use exr_deep::compression::filter::interleave_bytes;
use exr_deep::compression::filter::separate_bytes;
use exr_deep::compression::filter::to_differences;
use exr_deep::compression::filter::unfilter_bytes;
use exr_deep::compression::rle;
use exr_deep::compression::store_section;
use exr_deep::compression::zip;
use exr_deep::compression::Compression;
use exr_deep::error::Error;

const DEEP: [Compression; 3] = [Compression::Uncompressed, Compression::RLE, Compression::ZIPS];

const NOT_DEEP: [Compression; 7] = [
    Compression::ZIP,
    Compression::PIZ,
    Compression::PXR24,
    Compression::B44,
    Compression::B44A,
    Compression::DWAA,
    Compression::DWAB,
];

/// Bytes that look like noise: runs are rare in them.
fn noise(len: usize) -> Vec<u8> {
    let mut state: u32 = 0x1234_5678;
    (0..len)
        .map(|_| {
            state = state.wrapping_mul(1664525).wrapping_add(1013904223);
            (state >> 24) as u8
        })
        .collect()
}

fn sections() -> Vec<Vec<u8>> {
    vec![
        vec![],
        vec![0],
        vec![255],
        vec![1, 2],
        vec![7; 2],
        vec![7; 3],
        vec![7; 127],
        vec![7; 128],
        vec![7; 129],
        vec![7; 1000],
        (0..=255u8).collect(),
        (0..200u8).flat_map(|b| [b, b, b, 0, 1]).collect(),
        noise(1),
        noise(127),
        noise(128),
        noise(129),
        noise(5000),
        [noise(300), vec![9; 300], noise(300)].concat(),
    ]
}

#[test]
fn deep_methods() {
    for compression in DEEP {
        assert!(compression.supports_deep_data());
    }
    for compression in NOT_DEEP {
        assert!(!compression.supports_deep_data());
    }
}

#[test]
fn bytes_are_separated_into_even_and_odd_positions() {
    assert_eq!(separate_bytes(&[]), Vec::<u8>::new());
    assert_eq!(separate_bytes(&[9]), vec![9]);
    assert_eq!(separate_bytes(&[1, 2]), vec![1, 2]);
    assert_eq!(separate_bytes(&[1, 2, 3]), vec![1, 3, 2]);
    assert_eq!(separate_bytes(&[1, 2, 3, 4, 5, 6, 7, 8]), vec![1, 3, 5, 7, 2, 4, 6, 8]);
    assert_eq!(interleave_bytes(&[1, 3, 5, 7, 2, 4, 6, 8]), vec![1, 2, 3, 4, 5, 6, 7, 8]);
    assert_eq!(interleave_bytes(&[1, 3, 2]), vec![1, 2, 3]);
    for section in sections() {
        assert_eq!(interleave_bytes(&separate_bytes(&section)), section);
    }
}

#[test]
fn bytes_become_differences() {
    assert_eq!(to_differences(&[]), Vec::<u8>::new());
    assert_eq!(to_differences(&[9]), vec![9]);
    assert_eq!(to_differences(&[1, 3, 5, 7, 2, 4, 6, 8]), vec![1, 130, 130, 130, 123, 130, 130, 130]);
    assert_eq!(to_differences(&[0, 255, 0, 128, 128]), vec![0, 127, 129, 0, 128]);
    assert_eq!(from_differences(&[1, 130, 130, 130, 123, 130, 130, 130]), vec![1, 3, 5, 7, 2, 4, 6, 8]);
    assert_eq!(from_differences(&[0, 127, 129, 0, 128]), vec![0, 255, 0, 128, 128]);
    for section in sections() {
        assert_eq!(from_differences(&to_differences(&section)), section);
    }
}

#[test]
fn filter_is_undone() {
    assert_eq!(filter_bytes(&[1, 2, 3, 4, 5, 6, 7, 8]), vec![1, 130, 130, 130, 123, 130, 130, 130]);
    assert_eq!(unfilter_bytes(&[1, 130, 130, 130, 123, 130, 130, 130]), vec![1, 2, 3, 4, 5, 6, 7, 8]);
    for section in sections() {
        assert_eq!(unfilter_bytes(&filter_bytes(&section)), section);
    }
}

#[test]
fn runs_are_packed_as_the_format_says() {
    assert_eq!(rle::pack_runs(&[]), Vec::<u8>::new());
    // A single byte is a run of unequal bytes of length one.
    assert_eq!(rle::pack_runs(&[5]), vec![255, 5]);
    // Two equal bytes are too few for a run of equal bytes.
    assert_eq!(rle::pack_runs(&[5, 5]), vec![254, 5, 5]);
    assert_eq!(rle::pack_runs(&[5, 5, 5]), vec![2, 5]);
    assert_eq!(rle::pack_runs(&[1, 2, 3]), vec![253, 1, 2, 3]);
    assert_eq!(rle::pack_runs(&[1, 2, 3, 3, 3, 3, 4]), vec![254, 1, 2, 3, 3, 255, 4]);
    assert_eq!(
        rle::pack_runs(&[1, 130, 130, 130, 123, 130, 130, 130]),
        vec![255, 1, 2, 130, 255, 123, 2, 130]
    );
    // A run of equal bytes holds at most 128 bytes.
    assert_eq!(rle::pack_runs(&[7; 128]), vec![127, 7]);
    assert_eq!(rle::pack_runs(&[7; 129]), vec![127, 7, 255, 7]);
    assert_eq!(rle::pack_runs(&[7; 131]), vec![127, 7, 2, 7]);
    // A run of unequal bytes holds at most 127 bytes.
    let unequal: Vec<u8> = (0..200u8).collect();
    let packed = rle::pack_runs(&unequal);
    assert_eq!(packed.len(), 202);
    assert_eq!(packed[0], 129);
    assert_eq!(packed[1..128], unequal[..127]);
    assert_eq!(packed[128], 183);
    assert_eq!(packed[129..], unequal[127..]);
}

#[test]
fn runs_are_expanded_as_the_format_says() {
    assert_eq!(rle::expand_runs(&[], 0, true), Some(vec![]));
    assert_eq!(rle::expand_runs(&[2, 5], 3, true), Some(vec![5, 5, 5]));
    assert_eq!(rle::expand_runs(&[253, 1, 2, 3], 3, true), Some(vec![1, 2, 3]));
    assert_eq!(
        rle::expand_runs(&[254, 1, 2, 3, 3, 255, 4], 7, true),
        Some(vec![1, 2, 3, 3, 3, 3, 4])
    );
    assert_eq!(rle::expand_runs(&[127, 7], 128, true), Some(vec![7; 128]));
    assert_eq!(rle::expand_runs(&[0, 7], 1, true), Some(vec![7]));
    assert_eq!(rle::expand_runs(&[128, 9], 0, false), Some(vec![]));
    for section in sections() {
        for pedantic in [true, false] {
            assert_eq!(
                rle::expand_runs(&rle::pack_runs(&section), section.len(), pedantic),
                Some(section.clone())
            );
        }
    }
}

#[test]
fn runs_that_do_not_fit_are_refused() {
    // The input ends before the bytes are complete.
    assert_eq!(rle::expand_runs(&[], 1, false), None);
    assert_eq!(rle::expand_runs(&[2, 5], 4, false), None);
    // The input ends within a run.
    assert_eq!(rle::expand_runs(&[2], 3, false), None);
    assert_eq!(rle::expand_runs(&[253, 1, 2], 3, false), None);
    // A run holds more bytes than are expected.
    assert_eq!(rle::expand_runs(&[2, 5], 2, false), None);
    assert_eq!(rle::expand_runs(&[253, 1, 2, 3], 2, false), None);
    assert_eq!(rle::expand_runs(&[0, 1, 2, 5], 3, false), None);
}

#[test]
fn bytes_after_the_last_run_are_refused_in_pedantic_mode_only() {
    assert_eq!(rle::expand_runs(&[2, 5, 0, 7], 3, false), Some(vec![5, 5, 5]));
    assert_eq!(rle::expand_runs(&[2, 5, 0, 7], 3, true), None);
    assert_eq!(rle::expand_runs(&[2, 5, 99], 3, false), Some(vec![5, 5, 5]));
    assert_eq!(rle::expand_runs(&[2, 5, 99], 3, true), None);
    assert_eq!(rle::expand_runs(&[1], 0, false), Some(vec![]));
    assert_eq!(rle::expand_runs(&[1], 0, true), None);
}

#[test]
fn run_length_sections_roundtrip() {
    assert_eq!(rle::compress_bytes(&[1, 2, 3, 4, 5, 6, 7, 8]), vec![255, 1, 2, 130, 255, 123, 2, 130]);
    assert_eq!(
        rle::decompress_bytes(&[255, 1, 2, 130, 255, 123, 2, 130], 8, true),
        Some(vec![1, 2, 3, 4, 5, 6, 7, 8])
    );
    // Equal bytes become one byte and then differences of 128.
    assert_eq!(rle::compress_bytes(&[7; 10]), vec![255, 7, 8, 128]);
    for section in sections() {
        for pedantic in [true, false] {
            assert_eq!(
                rle::decompress_bytes(&rle::compress_bytes(&section), section.len(), pedantic),
                Some(section.clone())
            );
        }
    }
}

#[test]
fn zlib_sections_roundtrip() {
    for section in sections() {
        let compressed = zip::compress_bytes(&section);
        // A zlib stream, not the section itself.
        assert_eq!(compressed[0], 0x78);
        assert_ne!(compressed, section);
        assert_eq!(zip::decompress_bytes(&compressed, section.len()), Some(section));
    }
}

#[test]
fn zlib_section_is_read_from_its_stream() {
    // A zlib stream that stores the two bytes 5 and 130, which are the
    // filtered form of the bytes 5 and 7.
    let stream = [0x78, 0x01, 0x01, 0x02, 0x00, 0xFD, 0xFF, 0x05, 0x82, 0x00, 0x8E, 0x00, 0x88];
    assert_eq!(zip::decompress_bytes(&stream, 2), Some(vec![5, 7]));
    assert_eq!(
        decompress_sample_data(Compression::ZIPS, &stream, 2, true),
        Ok(vec![5, 7])
    );
    // The stream holds two bytes, no more and no fewer.
    assert_eq!(zip::decompress_bytes(&stream, 1), None);
    assert_eq!(zip::decompress_bytes(&stream, 3), None);
    // A stream with a wrong checksum is refused.
    let mut damaged = stream;
    damaged[12] = 0x89;
    assert_eq!(zip::decompress_bytes(&damaged, 2), None);
    assert_eq!(
        decompress_sample_data(Compression::ZIPS, &damaged, 2, false),
        Err(Error::Malformed)
    );
    // What is no zlib stream is refused.
    assert_eq!(zip::decompress_bytes(&[1, 2, 3, 4, 5, 6, 7, 8, 9, 10], 2), None);
    assert_eq!(zip::decompress_bytes(&[], 2), None);
}

#[test]
fn sections_roundtrip_under_every_deep_method() {
    for compression in DEEP {
        for section in sections() {
            let compressed = compress_section(compression, &section).unwrap();
            assert!(compressed.len() <= section.len());
            for pedantic in [true, false] {
                assert_eq!(
                    decompress_section(compression, &compressed, section.len(), pedantic),
                    Ok(section.clone())
                );
            }
        }
    }
}

#[test]
fn sections_that_do_not_shrink_are_stored_as_they_are() {
    let section = noise(500);
    for compression in DEEP {
        assert_eq!(compress_section(compression, &section), Ok(section.clone()));
    }
    let equal = vec![7u8; 1000];
    assert_eq!(compress_section(Compression::Uncompressed, &equal), Ok(equal.clone()));
    assert_eq!(compress_section(Compression::RLE, &equal), Ok(rle::compress_bytes(&equal)));
    assert_eq!(compress_section(Compression::ZIPS, &equal), Ok(zip::compress_bytes(&equal)));
    assert!(rle::compress_bytes(&equal).len() < 30);
    assert!(zip::compress_bytes(&equal).len() < 30);
}

#[test]
fn other_methods_are_unsupported() {
    for compression in NOT_DEEP {
        assert_eq!(compress_section(compression, &[1, 2, 3]), Err(Error::Unsupported));
        assert_eq!(decompress_section(compression, &[1, 2, 3], 3, true), Err(Error::Unsupported));
        assert_eq!(compress_sample_table(compression, &[1, 2, 3]), Err(Error::Unsupported));
        assert_eq!(
            decompress_sample_table(compression, &[0; 12], 3, 1, true),
            Err(Error::Unsupported)
        );
        assert_eq!(compress_sample_data(compression, &[1, 2, 3]), Err(Error::Unsupported));
        assert_eq!(
            decompress_sample_data(compression, &[1, 2, 3], 3, true),
            Err(Error::Unsupported)
        );
    }
}

#[test]
fn sample_table_is_stored_in_little_endian_entries() {
    assert_eq!(
        compress_sample_table(Compression::Uncompressed, &[2, 3, 6, 0, 2, 0x01020304]),
        Ok(vec![
            2, 0, 0, 0, 3, 0, 0, 0, 6, 0, 0, 0, 0, 0, 0, 0, 2, 0, 0, 0, 0x04, 0x03, 0x02, 0x01
        ])
    );
    assert_eq!(
        compress_sample_table(Compression::Uncompressed, &[-1, i32::MIN, i32::MAX]),
        Ok(vec![255, 255, 255, 255, 0, 0, 0, 128, 255, 255, 255, 127])
    );
    assert_eq!(
        decompress_sample_table(
            Compression::Uncompressed,
            &[255, 255, 255, 255, 0, 0, 0, 128, 255, 255, 255, 127],
            3,
            1,
            true
        ),
        Ok(vec![-1, i32::MIN, i32::MAX])
    );
    assert_eq!(compress_sample_table(Compression::ZIPS, &[]), Ok(vec![]));
}

#[test]
fn sample_tables_roundtrip_under_every_deep_method() {
    let tables: Vec<(Vec<i32>, usize, usize)> = vec![
        (vec![], 0, 0),
        (vec![0], 1, 1),
        (vec![2, 3, 6, 0, 2, 3], 3, 2),
        (vec![1; 4096], 64, 64),
        ((0..5000).collect(), 5000, 1),
        (vec![i32::MIN, -1, 0, 1, i32::MAX, 65536], 2, 3),
    ];
    for compression in DEEP {
        for (table, width, height) in &tables {
            let compressed = compress_sample_table(compression, table).unwrap();
            assert!(compressed.len() <= 4 * table.len());
            for pedantic in [true, false] {
                assert_eq!(
                    decompress_sample_table(compression, &compressed, *width, *height, pedantic),
                    Ok(table.clone())
                );
            }
        }
    }
    // The upper bytes of small counts are zero: half of the table is one run
    // after the other.
    let compressed = compress_sample_table(Compression::RLE, &vec![1; 4096]).unwrap();
    assert!(compressed.len() < 3 * 4096);
    let compressed = compress_sample_table(Compression::RLE, &vec![0; 4096]).unwrap();
    assert!(compressed.len() < 300);
}

#[test]
fn sample_table_of_wrong_size_is_malformed() {
    let stored = compress_sample_table(Compression::Uncompressed, &[2, 3, 6]).unwrap();
    assert_eq!(
        decompress_sample_table(Compression::Uncompressed, &stored, 2, 1, true),
        Err(Error::Malformed)
    );
    assert_eq!(
        decompress_sample_table(Compression::Uncompressed, &stored, 2, 2, false),
        Err(Error::Malformed)
    );
    assert_eq!(
        decompress_sample_table(Compression::Uncompressed, &stored, usize::MAX, 1, false),
        Err(Error::Malformed)
    );
    assert_eq!(
        decompress_sample_table(Compression::Uncompressed, &stored, usize::MAX / 2, 2, false),
        Err(Error::Malformed)
    );
    assert_eq!(
        decompress_sample_table(Compression::RLE, &[2, 5], 1, 1, false),
        Err(Error::Malformed)
    );
    assert_eq!(
        decompress_sample_table(Compression::ZIPS, &[2, 5], 1, 1, false),
        Err(Error::Malformed)
    );
}

#[test]
fn sample_data_roundtrips_under_every_deep_method() {
    for compression in DEEP {
        for section in sections() {
            let compressed = compress_sample_data(compression, &section).unwrap();
            for pedantic in [true, false] {
                assert_eq!(
                    decompress_sample_data(compression, &compressed, section.len(), pedantic),
                    Ok(section.clone())
                );
            }
        }
    }
}

#[test]
fn sample_data_of_wrong_size() {
    // Stored as it is, the section must have the size that is expected.
    assert_eq!(
        decompress_sample_data(Compression::Uncompressed, &[1, 2, 3], 4, false),
        Err(Error::SizeMismatch)
    );
    assert_eq!(
        decompress_sample_data(Compression::Uncompressed, &[1, 2, 3], 2, false),
        Err(Error::SizeMismatch)
    );
    // Runs that do not give the expected bytes are malformed.
    assert_eq!(decompress_sample_data(Compression::RLE, &[2, 5], 4, false), Err(Error::Malformed));
    assert_eq!(decompress_sample_data(Compression::RLE, &[2, 5], 3, false), Ok(vec![5, 15, 138]));
    // Two bytes that are expected to be two bytes are stored as they are.
    assert_eq!(decompress_sample_data(Compression::RLE, &[2, 5], 2, true), Ok(vec![2, 5]));
}

#[test]
fn stored_form_is_the_shorter_one() {
    assert_eq!(store_section(vec![1, 2], &[5, 6, 7]), vec![1, 2]);
    assert_eq!(store_section(vec![1, 2, 3], &[5, 6, 7]), vec![5, 6, 7]);
    assert_eq!(store_section(vec![1, 2, 3, 4], &[5, 6, 7]), vec![5, 6, 7]);
    assert_eq!(store_section(vec![], &[]), Vec::<u8>::new());
    assert_eq!(store_section(vec![], &[9]), Vec::<u8>::new());
}

#[test]
fn inflated_bytes_become_a_section() {
    assert_eq!(zip::section_of_inflated(Some(vec![5, 130]), 2), Some(vec![5, 7]));
    assert_eq!(zip::section_of_inflated(Some(vec![5, 130]), 3), None);
    assert_eq!(zip::section_of_inflated(Some(vec![5, 130]), 1), None);
    assert_eq!(zip::section_of_inflated(None, 0), None);
    assert_eq!(zip::section_of_inflated(Some(vec![]), 0), Some(vec![]));
    assert_eq!(
        zip::section_of_inflated(Some(vec![1, 130, 130, 130, 123, 130, 130, 130]), 8),
        Some(vec![1, 2, 3, 4, 5, 6, 7, 8])
    );
}

#[test]
fn zlib_restores_what_it_wrote() {
    for section in sections() {
        assert!(zip::zlib_restores(&section));
    }
}

#[test]
fn every_deep_method_restores_the_sections() {
    for compression in DEEP {
        for section in sections() {
            assert!(compression.restores(&section));
        }
    }
    for compression in NOT_DEEP {
        assert!(compression.restores(&[1, 2, 3]));
    }
}
