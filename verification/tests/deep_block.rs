use exr_deep::block::chunk::CompressedDeepScanLineBlock;
use exr_deep::block::chunk::CompressedDeepTileBlock;
use exr_deep::block::chunk::TileCoordinates;
use exr_deep::block::deep::compress_deep_scanline_block;
use exr_deep::block::deep::compress_deep_tile_block;
use exr_deep::block::deep::decompress_deep_scanline_block;
use exr_deep::block::deep::decompress_deep_tile_block;
use exr_deep::block::deep::pack_deep_channels;
use exr_deep::block::deep::unpack_deep_channels;
use exr_deep::block::table::pixel_offsets_to_disk_table;
use exr_deep::compression::deep::compress_sample_data;
use exr_deep::compression::deep::compress_sample_table;
use exr_deep::compression::Compression;
use exr_deep::error::Error;
use exr_deep::image::deep::DeepChannelData;
use exr_deep::image::deep::DeepSamples;
use exr_deep::meta::attribute::ChannelDescription;
use exr_deep::meta::attribute::ChannelList;
use exr_deep::meta::attribute::SampleType;

fn make_test_channels() -> ChannelList {
    ChannelList::new(vec![
        ChannelDescription::new("R", SampleType::F32, true),
        ChannelDescription::new("G", SampleType::F32, true),
        ChannelDescription::new("B", SampleType::F32, true),
    ])
}

fn f32_bits(values: &[f32]) -> Vec<u32> {
    values.iter().map(|v| v.to_bits()).collect()
}

/// The 3 x 2 block with the sample counts [2, 1, 3] and [0, 2, 1].
fn make_mixed_block(channels: &ChannelList) -> DeepSamples {
    let mut samples = DeepSamples::new(3, 2);
    samples.set_cumulative_counts(vec![2, 3, 6, 6, 8, 9]).unwrap();
    samples.allocate_channels(channels);
    samples.channels[0] = DeepChannelData::F32(f32_bits(&[0.0, 1.0, 2.0, 3.0, 4.0, 5.0, 6.0, 7.0, 8.0]));
    samples.channels[1] =
        DeepChannelData::F32(f32_bits(&[10.0, 20.0, 30.0, 40.0, 50.0, 60.0, 70.0, 80.0, 90.0]));
    samples.channels[2] = DeepChannelData::F32(f32_bits(&[
        100.0, 200.0, 300.0, 400.0, 500.0, 600.0, 700.0, 800.0, 900.0,
    ]));
    samples
}

fn table_section(table: &[i32]) -> Vec<u8> {
    table.iter().flat_map(|entry| entry.to_le_bytes()).collect()
}

#[test]
fn roundtrip_deep_scanline_block_uncompressed() {
    let channels = make_test_channels();

    // Create test deep samples 2x2 with [1, 2, 0, 3] samples per pixel
    let mut samples = DeepSamples::new(2, 2);
    samples.set_cumulative_counts(vec![1, 3, 3, 6]).unwrap();
    samples.allocate_channels(&channels);

    // Fill with test data
    for ch in &mut samples.channels {
        if let DeepChannelData::F32(ref mut v) = ch {
            for (i, val) in v.iter_mut().enumerate() {
                *val = (i as f32 * 0.1).to_bits();
            }
        }
    }

    // Compress
    let block =
        compress_deep_scanline_block(&samples, Compression::Uncompressed, &channels, 0).unwrap();

    // Decompress
    let recovered =
        decompress_deep_scanline_block(&block, Compression::Uncompressed, &channels, 2, 2, true)
            .unwrap();

    assert_eq!(samples.sample_offsets, recovered.sample_offsets);
    assert_eq!(samples.channels.len(), recovered.channels.len());

    for (orig, rec) in samples.channels.iter().zip(recovered.channels.iter()) {
        match (orig, rec) {
            (DeepChannelData::F32(o), DeepChannelData::F32(r)) => {
                assert_eq!(o, r);
            }
            _ => panic!("channel type mismatch"),
        }
    }
}

#[test]
fn roundtrip_deep_scanline_block_rle() {
    let channels = make_test_channels();

    let mut samples = DeepSamples::new(4, 4);
    samples
        .set_cumulative_counts(vec![1, 1, 2, 3, 3, 4, 5, 5, 6, 6, 6, 7, 8, 9, 10, 12])
        .unwrap();
    samples.allocate_channels(&channels);

    for ch in &mut samples.channels {
        if let DeepChannelData::F32(ref mut v) = ch {
            for (i, val) in v.iter_mut().enumerate() {
                *val = ((i % 10) as f32).to_bits();
            }
        }
    }

    let block = compress_deep_scanline_block(&samples, Compression::RLE, &channels, 0).unwrap();

    let recovered =
        decompress_deep_scanline_block(&block, Compression::RLE, &channels, 4, 4, true).unwrap();

    assert_eq!(samples.sample_offsets, recovered.sample_offsets);
}

#[test]
fn pack_unpack_deep_channels() {
    let channels = make_test_channels();

    let mut samples = DeepSamples::new(2, 1);
    samples.set_cumulative_counts(vec![2, 5]).unwrap(); // 2 samples, then 3
    samples.allocate_channels(&channels);

    // Set specific values
    if let DeepChannelData::F32(ref mut r) = samples.channels[0] {
        r[0] = 1.0f32.to_bits();
        r[1] = 2.0f32.to_bits();
        r[2] = 3.0f32.to_bits();
        r[3] = 4.0f32.to_bits();
        r[4] = 5.0f32.to_bits();
    }
    if let DeepChannelData::F32(ref mut g) = samples.channels[1] {
        g[0] = 10.0f32.to_bits();
        g[1] = 20.0f32.to_bits();
        g[2] = 30.0f32.to_bits();
        g[3] = 40.0f32.to_bits();
        g[4] = 50.0f32.to_bits();
    }
    if let DeepChannelData::F32(ref mut b) = samples.channels[2] {
        b[0] = 100.0f32.to_bits();
        b[1] = 200.0f32.to_bits();
        b[2] = 300.0f32.to_bits();
        b[3] = 400.0f32.to_bits();
        b[4] = 500.0f32.to_bits();
    }

    let packed = pack_deep_channels(&samples, &channels).unwrap();

    // Unpack into new samples
    let mut recovered = DeepSamples::new(2, 1);
    recovered.set_cumulative_counts(vec![2, 5]).unwrap();
    unpack_deep_channels(&packed, &mut recovered, &channels).unwrap();

    assert_eq!(samples.channels, recovered.channels);
}

#[test]
fn mixed_block_has_the_sections_of_its_counts() {
    let channels = make_test_channels();
    let samples = make_mixed_block(&channels);
    assert_eq!(samples.sample_offsets, vec![0, 2, 3, 6, 6, 8, 9]);
    assert_eq!(samples.total_samples(), 9);

    let block =
        compress_deep_scanline_block(&samples, Compression::Uncompressed, &channels, 7).unwrap();
    assert_eq!(block.y_coordinate, 7);
    assert_eq!(block.decompressed_sample_data_size, 108);
    assert_eq!(block.compressed_pixel_offset_table, table_section(&[2, 3, 6, 0, 2, 3]));
    assert_eq!(block.compressed_sample_data_le, pack_deep_channels(&samples, &channels).unwrap());
    assert_eq!(block.compressed_sample_data_le.len(), 108);
}

#[test]
fn mixed_block_roundtrips_uncompressed_and_rle_and_zips() {
    let channels = make_test_channels();
    let samples = make_mixed_block(&channels);
    for compression in [Compression::Uncompressed, Compression::RLE, Compression::ZIPS] {
        for pedantic in [true, false] {
            let block = compress_deep_scanline_block(&samples, compression, &channels, 0).unwrap();
            let recovered =
                decompress_deep_scanline_block(&block, compression, &channels, 3, 2, pedantic)
                    .unwrap();
            assert_eq!(recovered, samples);
        }
    }
}

#[test]
fn tile_block_roundtrips_and_keeps_its_coordinates() {
    let channels = make_test_channels();
    let samples = make_mixed_block(&channels);
    let coordinates = TileCoordinates { tile_x: 3, tile_y: 4, level_x: 1, level_y: 2 };
    for compression in [Compression::Uncompressed, Compression::RLE, Compression::ZIPS] {
        let block = compress_deep_tile_block(&samples, compression, &channels, coordinates).unwrap();
        assert_eq!(block.coordinates, coordinates);
        assert_eq!(block.decompressed_sample_data_size, 108);
        let recovered =
            decompress_deep_tile_block(&block, compression, &channels, 3, 2, true).unwrap();
        assert_eq!(recovered, samples);
    }
}

#[test]
fn single_pixel_without_samples_roundtrips() {
    let channels = make_test_channels();
    let mut samples = DeepSamples::new(1, 1);
    samples.set_cumulative_counts(vec![0]).unwrap();
    samples.allocate_channels(&channels);
    assert_eq!(samples.sample_offsets, vec![0, 0]);

    for compression in [Compression::Uncompressed, Compression::RLE, Compression::ZIPS] {
        let block = compress_deep_scanline_block(&samples, compression, &channels, 0).unwrap();
        assert_eq!(block.compressed_pixel_offset_table, table_section(&[0]));
        assert!(block.compressed_sample_data_le.is_empty());
        assert_eq!(block.decompressed_sample_data_size, 0);
        let recovered =
            decompress_deep_scanline_block(&block, compression, &channels, 1, 1, true).unwrap();
        assert_eq!(recovered, samples);
        assert_eq!(
            recovered.channels,
            vec![
                DeepChannelData::F32(vec![]),
                DeepChannelData::F32(vec![]),
                DeepChannelData::F32(vec![])
            ]
        );
    }
}

#[test]
fn block_without_pixels_roundtrips() {
    let channels = make_test_channels();
    let mut samples = DeepSamples::new(0, 5);
    samples.set_cumulative_counts(vec![]).unwrap();
    samples.allocate_channels(&channels);
    assert_eq!(samples.sample_offsets, vec![0]);
    let block =
        compress_deep_scanline_block(&samples, Compression::Uncompressed, &channels, 0).unwrap();
    assert!(block.compressed_pixel_offset_table.is_empty());
    assert!(block.compressed_sample_data_le.is_empty());
    let recovered =
        decompress_deep_scanline_block(&block, Compression::Uncompressed, &channels, 0, 5, true)
            .unwrap();
    assert_eq!(recovered, samples);
}

#[test]
fn large_block_roundtrips_under_zips() {
    let channels = ChannelList::new(vec![ChannelDescription::new("Z", SampleType::F16, true)]);
    let pixels: u32 = 1920 * 1080;
    let mut samples = DeepSamples::new(1920, 1080);
    samples.set_cumulative_counts((1..=pixels).collect()).unwrap();
    samples.allocate_channels(&channels);
    assert_eq!(samples.total_samples(), 2073600);
    if let DeepChannelData::F16(ref mut z) = samples.channels[0] {
        for (i, value) in z.iter_mut().enumerate() {
            *value = half::f16::from_f32((i % 1000) as f32 * 0.25).to_bits();
        }
    }
    assert_eq!(pack_deep_channels(&samples, &channels).unwrap().len(), 4147200);

    let block = compress_deep_scanline_block(&samples, Compression::ZIPS, &channels, 0).unwrap();
    assert_eq!(block.decompressed_sample_data_size, 4147200);
    assert!(block.compressed_sample_data_le.len() < 4147200);
    let recovered =
        decompress_deep_scanline_block(&block, Compression::ZIPS, &channels, 1920, 1080, true)
            .unwrap();
    assert_eq!(recovered, samples);
}

#[test]
fn large_block_roundtrips_under_rle() {
    let channels = ChannelList::new(vec![ChannelDescription::new("Z", SampleType::F16, true)]);
    let pixels: u32 = 640 * 480;
    let mut samples = DeepSamples::new(640, 480);
    samples.set_cumulative_counts((1..=pixels).collect()).unwrap();
    samples.allocate_channels(&channels);
    if let DeepChannelData::F16(ref mut z) = samples.channels[0] {
        for (i, value) in z.iter_mut().enumerate() {
            *value = half::f16::from_f32((i / 640) as f32).to_bits();
        }
    }
    let block = compress_deep_scanline_block(&samples, Compression::RLE, &channels, 0).unwrap();
    assert!(block.compressed_sample_data_le.len() < block.decompressed_sample_data_size);
    assert!(block.compressed_pixel_offset_table.len() < 4 * 640 * 480);
    let recovered =
        decompress_deep_scanline_block(&block, Compression::RLE, &channels, 640, 480, true)
            .unwrap();
    assert_eq!(recovered, samples);
}

#[test]
fn decreasing_table_is_malformed() {
    let channels = make_test_channels();
    let block = CompressedDeepScanLineBlock {
        y_coordinate: 0,
        decompressed_sample_data_size: 0,
        compressed_pixel_offset_table: table_section(&[3, 2]),
        compressed_sample_data_le: vec![],
    };
    for pedantic in [true, false] {
        assert_eq!(
            decompress_deep_scanline_block(
                &block,
                Compression::Uncompressed,
                &channels,
                2,
                1,
                pedantic
            ),
            Err(Error::Malformed)
        );
    }
}

#[test]
fn negative_table_entry_is_malformed() {
    let channels = make_test_channels();
    let block = CompressedDeepScanLineBlock {
        y_coordinate: 0,
        decompressed_sample_data_size: 0,
        compressed_pixel_offset_table: table_section(&[-1, 0]),
        compressed_sample_data_le: vec![],
    };
    assert_eq!(
        decompress_deep_scanline_block(&block, Compression::Uncompressed, &channels, 2, 1, true),
        Err(Error::Malformed)
    );
}

#[test]
fn table_of_wrong_length_is_malformed() {
    let channels = make_test_channels();
    let block = CompressedDeepScanLineBlock {
        y_coordinate: 0,
        decompressed_sample_data_size: 0,
        compressed_pixel_offset_table: table_section(&[0, 0, 0]),
        compressed_sample_data_le: vec![],
    };
    assert_eq!(
        decompress_deep_scanline_block(&block, Compression::Uncompressed, &channels, 2, 1, true),
        Err(Error::Malformed)
    );
    assert_eq!(
        decompress_deep_scanline_block(
            &block,
            Compression::Uncompressed,
            &channels,
            usize::MAX,
            usize::MAX,
            true
        ),
        Err(Error::Malformed)
    );
}

#[test]
fn table_with_too_many_samples_is_malformed() {
    let channels = ChannelList::new(vec![]);
    // Two lines of one pixel: i32::MAX samples and one more.
    let block = CompressedDeepScanLineBlock {
        y_coordinate: 0,
        decompressed_sample_data_size: 0,
        compressed_pixel_offset_table: table_section(&[i32::MAX, 1]),
        compressed_sample_data_le: vec![],
    };
    assert_eq!(
        decompress_deep_scanline_block(&block, Compression::Uncompressed, &channels, 1, 2, true),
        Err(Error::Malformed)
    );
    // One sample less is accepted.
    let block = CompressedDeepScanLineBlock {
        compressed_pixel_offset_table: table_section(&[i32::MAX - 1, 1]),
        ..block
    };
    let samples =
        decompress_deep_scanline_block(&block, Compression::Uncompressed, &channels, 1, 2, true)
            .unwrap();
    assert_eq!(samples.sample_offsets, vec![0, 2147483646, 2147483647]);
}

#[test]
fn block_with_more_than_i32_max_samples_compresses_but_does_not_decompress() {
    let channels = ChannelList::new(vec![]);
    let mut samples = DeepSamples::new(1, 2);
    samples.set_cumulative_counts(vec![0, 2147483647, 2147483648]).unwrap();
    samples.allocate_channels(&channels);
    let block =
        compress_deep_scanline_block(&samples, Compression::Uncompressed, &channels, 0).unwrap();
    assert_eq!(block.compressed_pixel_offset_table, table_section(&[i32::MAX, 1]));
    assert_eq!(
        decompress_deep_scanline_block(&block, Compression::Uncompressed, &channels, 1, 2, true),
        Err(Error::Malformed)
    );
}

#[test]
fn short_sample_data_is_a_size_mismatch() {
    let channels = make_test_channels();
    let samples = make_mixed_block(&channels);
    let mut block =
        compress_deep_scanline_block(&samples, Compression::Uncompressed, &channels, 0).unwrap();
    block.compressed_sample_data_le.pop();
    block.decompressed_sample_data_size = 107;
    for pedantic in [true, false] {
        assert_eq!(
            decompress_deep_scanline_block(
                &block,
                Compression::Uncompressed,
                &channels,
                3,
                2,
                pedantic
            ),
            Err(Error::SizeMismatch)
        );
    }
}

#[test]
fn sample_data_that_is_not_as_long_as_announced_is_a_size_mismatch() {
    let channels = make_test_channels();
    let samples = make_mixed_block(&channels);
    let mut block =
        compress_deep_scanline_block(&samples, Compression::Uncompressed, &channels, 0).unwrap();
    block.compressed_sample_data_le.pop();
    assert_eq!(block.decompressed_sample_data_size, 108);
    assert_eq!(
        decompress_deep_scanline_block(&block, Compression::Uncompressed, &channels, 3, 2, false),
        Err(Error::SizeMismatch)
    );
}

#[test]
fn zero_padding_is_accepted_in_lenient_mode_only() {
    let channels = make_test_channels();
    let samples = make_mixed_block(&channels);
    let block =
        compress_deep_scanline_block(&samples, Compression::Uncompressed, &channels, 0).unwrap();
    for padding in 1..=7usize {
        let mut padded = block.clone();
        padded.compressed_sample_data_le.extend(std::iter::repeat(0u8).take(padding));
        padded.decompressed_sample_data_size = 108 + padding;
        assert_eq!(
            decompress_deep_scanline_block(
                &padded,
                Compression::Uncompressed,
                &channels,
                3,
                2,
                false
            ),
            Ok(samples.clone())
        );
        assert_eq!(
            decompress_deep_scanline_block(
                &padded,
                Compression::Uncompressed,
                &channels,
                3,
                2,
                true
            ),
            Err(Error::SizeMismatch)
        );
    }
}

#[test]
fn padding_of_eight_bytes_or_of_other_bytes_is_a_size_mismatch() {
    let channels = make_test_channels();
    let samples = make_mixed_block(&channels);
    let block =
        compress_deep_scanline_block(&samples, Compression::Uncompressed, &channels, 0).unwrap();

    let mut long = block.clone();
    long.compressed_sample_data_le.extend([0u8; 8]);
    long.decompressed_sample_data_size = 116;
    assert_eq!(
        decompress_deep_scanline_block(&long, Compression::Uncompressed, &channels, 3, 2, false),
        Err(Error::SizeMismatch)
    );

    let mut dirty = block.clone();
    dirty.compressed_sample_data_le.extend([0u8, 0, 1]);
    dirty.decompressed_sample_data_size = 111;
    assert_eq!(
        decompress_deep_scanline_block(&dirty, Compression::Uncompressed, &channels, 3, 2, false),
        Err(Error::SizeMismatch)
    );
}

#[test]
fn methods_that_cannot_hold_deep_data_are_unsupported() {
    let channels = make_test_channels();
    let samples = make_mixed_block(&channels);
    let block =
        compress_deep_scanline_block(&samples, Compression::Uncompressed, &channels, 0).unwrap();
    for compression in [
        Compression::ZIP,
        Compression::PIZ,
        Compression::PXR24,
        Compression::B44,
        Compression::B44A,
        Compression::DWAA,
        Compression::DWAB,
    ] {
        assert_eq!(
            compress_deep_scanline_block(&samples, compression, &channels, 0),
            Err(Error::Unsupported)
        );
        assert_eq!(
            decompress_deep_scanline_block(&block, compression, &channels, 3, 2, true),
            Err(Error::Unsupported)
        );
    }
}

#[test]
fn block_with_other_channels_than_the_list_is_inconsistent() {
    let channels = make_test_channels();
    let mut samples = make_mixed_block(&channels);
    samples.channels[1] = DeepChannelData::U32(vec![0; 9]);
    assert_eq!(
        compress_deep_scanline_block(&samples, Compression::Uncompressed, &channels, 0),
        Err(Error::InternalConsistency)
    );
    assert_eq!(pack_deep_channels(&samples, &channels), Err(Error::InternalConsistency));

    let mut samples = make_mixed_block(&channels);
    samples.channels.pop();
    assert_eq!(
        compress_deep_tile_block(
            &samples,
            Compression::RLE,
            &channels,
            TileCoordinates { tile_x: 0, tile_y: 0, level_x: 0, level_y: 0 }
        ),
        Err(Error::InternalConsistency)
    );
}

#[test]
fn block_with_a_short_channel_is_inconsistent() {
    let channels = make_test_channels();
    let mut samples = make_mixed_block(&channels);
    samples.channels[2] = DeepChannelData::F32(vec![0; 8]);
    assert_eq!(
        compress_deep_scanline_block(&samples, Compression::Uncompressed, &channels, 0),
        Err(Error::InternalConsistency)
    );
}

#[test]
fn line_with_more_than_i32_max_samples_overflows() {
    let channels = ChannelList::new(vec![]);
    let mut samples = DeepSamples::new(1, 1);
    samples.set_cumulative_counts(vec![0, 2147483648]).unwrap();
    samples.allocate_channels(&channels);
    assert_eq!(
        compress_deep_scanline_block(&samples, Compression::Uncompressed, &channels, 0),
        Err(Error::Overflow)
    );
}

#[test]
fn tile_block_reports_the_faults_of_its_table_before_those_of_its_data() {
    let channels = make_test_channels();
    let block = CompressedDeepTileBlock {
        coordinates: TileCoordinates { tile_x: 0, tile_y: 0, level_x: 0, level_y: 0 },
        decompressed_sample_data_size: 5,
        compressed_pixel_offset_table: table_section(&[3, 2]),
        compressed_sample_data_le: vec![1, 2, 3],
    };
    assert_eq!(
        decompress_deep_tile_block(&block, Compression::Uncompressed, &channels, 2, 1, true),
        Err(Error::Malformed)
    );
}

#[test]
fn block_holds_the_compressed_table_and_the_compressed_stream() {
    let channels = make_test_channels();
    let mut samples = DeepSamples::new(8, 8);
    samples.set_cumulative_counts((1..=64).map(|pixel| 3 * pixel).collect()).unwrap();
    samples.allocate_channels(&channels);
    let table = pixel_offsets_to_disk_table(&samples.sample_offsets, 8, 8).unwrap();
    let stream = pack_deep_channels(&samples, &channels).unwrap();
    for compression in [Compression::Uncompressed, Compression::RLE, Compression::ZIPS] {
        let block = compress_deep_scanline_block(&samples, compression, &channels, -4).unwrap();
        assert_eq!(block.y_coordinate, -4);
        assert_eq!(block.decompressed_sample_data_size, stream.len());
        assert_eq!(
            block.compressed_pixel_offset_table,
            compress_sample_table(compression, &table).unwrap()
        );
        assert_eq!(
            block.compressed_sample_data_le,
            compress_sample_data(compression, &stream).unwrap()
        );
        // Compressing twice gives the same bytes.
        assert_eq!(
            compress_deep_scanline_block(&samples, compression, &channels, -4).unwrap(),
            block
        );
    }
    // Zeroed channels and regular counts compress well.
    let block = compress_deep_scanline_block(&samples, Compression::RLE, &channels, 0).unwrap();
    assert!(block.compressed_sample_data_le.len() < stream.len() / 10);
    assert!(block.compressed_pixel_offset_table.len() < 4 * 64);
}
