use rotic_flac::metadata::{Block, BlockType, ConvertBytes, StreamInfo};
use rotic_flac::Error;

fn sample_bytes() -> Vec<u8> {
    let mut bytes = vec![
        0x10, 0x00, // smallest block: 4096
        0x10, 0x00, // largest block: 4096
        0x00, 0x00, 0x0E, // smallest frame: 14
        0x00, 0x32, 0xC8, // largest frame: 13000
        0x0A, 0xC4, 0x42, 0xF0, // 44100 Hz, 2 channels, 16 bits
        0x00, 0x0F, 0x42, 0x40, // 1000000 samples
    ];
    bytes.extend((1..=16).map(|b| b as u8));
    bytes
}

fn sample_info() -> StreamInfo {
    StreamInfo {
        min_block_size: 4096,
        max_block_size: 4096,
        min_frame_size: 14,
        max_frame_size: 13000,
        sample_rate: 44100,
        channels: 2,
        bps: 16,
        total_samples: 1_000_000,
        md5: [1, 2, 3, 4, 5, 6, 7, 8, 9, 10, 11, 12, 13, 14, 15, 16],
    }
}

#[test]
fn stream_info_decodes_every_field() {
    let info = StreamInfo::from_bytes(sample_bytes()).unwrap();
    assert_eq!(info.min_block_size, 4096);
    assert_eq!(info.max_block_size, 4096);
    assert_eq!(info.min_frame_size, 14);
    assert_eq!(info.max_frame_size, 13000);
    assert_eq!(info.sample_rate, 44100);
    assert_eq!(info.channels, 2);
    assert_eq!(info.bps, 16);
    assert_eq!(info.total_samples, 1_000_000);
    assert_eq!(info.md5, [1, 2, 3, 4, 5, 6, 7, 8, 9, 10, 11, 12, 13, 14, 15, 16]);
}

#[test]
fn stream_info_encodes_to_the_same_bytes() {
    assert_eq!(sample_info().into_bytes(), sample_bytes());
}

#[test]
fn stream_info_writes_both_block_sizes() {
    let mut info = sample_info();
    info.min_block_size = 0x0102;
    info.max_block_size = 0x0304;
    let bytes = info.into_bytes();
    assert_eq!(&bytes[0..4], &[0x01, 0x02, 0x03, 0x04]);
}

#[test]
fn stream_info_round_trips_the_extremes() {
    let low = StreamInfo {
        min_block_size: 0,
        max_block_size: 0,
        min_frame_size: 0,
        max_frame_size: 0,
        sample_rate: 0,
        channels: 1,
        bps: 1,
        total_samples: 0,
        md5: [0; 16],
    };
    let high = StreamInfo {
        min_block_size: u16::MAX,
        max_block_size: u16::MAX,
        min_frame_size: 0xFF_FFFF,
        max_frame_size: 0xFF_FFFF,
        sample_rate: 0xF_FFFF,
        channels: 8,
        bps: 32,
        total_samples: 0xF_FFFF_FFFF,
        md5: [0xFF; 16],
    };
    for info in [low, high, sample_info()] {
        let bytes = info.clone().into_bytes();
        assert_eq!(bytes.len(), 34);
        assert_eq!(StreamInfo::from_bytes(bytes).unwrap(), info);
    }
}

#[test]
fn stream_info_round_trips_every_channel_count_and_depth() {
    for channels in 1..=8u8 {
        for bps in 1..=32u8 {
            let mut info = sample_info();
            info.channels = channels;
            info.bps = bps;
            let back = StreamInfo::from_bytes(info.clone().into_bytes()).unwrap();
            assert_eq!(back, info);
        }
    }
}

#[test]
fn stream_info_all_ones_decode_to_the_widest_values() {
    let info = StreamInfo::from_bytes(vec![0xFF; 34]).unwrap();
    assert_eq!(info.sample_rate, 0xF_FFFF);
    assert_eq!(info.channels, 8);
    assert_eq!(info.bps, 32);
    assert_eq!(info.total_samples, 0xF_FFFF_FFFF);
    assert_eq!(info.min_frame_size, 0xFF_FFFF);
}

#[test]
fn stream_info_fields_beyond_their_width_are_reduced() {
    let mut info = sample_info();
    info.sample_rate = 0x10_0000 + 44100;
    info.channels = 0;
    info.bps = 0;
    info.total_samples = 0x10_0000_0000 + 5;
    info.min_frame_size = 0x0100_000E;
    let back = StreamInfo::from_bytes(info.into_bytes()).unwrap();
    assert_eq!(back.sample_rate, 44100);
    assert_eq!(back.channels, 8);
    assert_eq!(back.bps, 32);
    assert_eq!(back.total_samples, 5);
    assert_eq!(back.min_frame_size, 14);
}

#[test]
fn stream_info_of_another_length_is_a_format_error() {
    for len in [0usize, 1, 33, 35, 68] {
        let result = StreamInfo::from_bytes(vec![0; len]);
        assert!(matches!(result, Err(Error::InvalidFormat)));
    }
}

#[test]
fn stream_info_default_is_all_zero() {
    let info = StreamInfo::default();
    assert_eq!(info.min_block_size, 0);
    assert_eq!(info.sample_rate, 0);
    assert_eq!(info.channels, 0);
    assert_eq!(info.total_samples, 0);
    assert_eq!(info.md5, [0; 16]);
}

#[test]
fn stream_info_block_is_framed_with_type_zero() {
    let block = Block::new(true, 4, 7, sample_info());
    let bytes = block.to_bytes();
    assert_eq!(StreamInfo::BLOCK_TYPE, 0);
    assert_eq!(&bytes[0..4], &[0x80, 0x00, 0x00, 0x22]);
    assert_eq!(&bytes[4..], &sample_bytes()[..]);
}
