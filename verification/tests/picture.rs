use rotic_flac::metadata::{Block, BlockType, ConvertBytes, Picture, PictureType};
use rotic_flac::Error;

fn payload(kind: u8, mime: &[u8], description: &[u8], image: &[u8]) -> Vec<u8> {
    let mut bytes = vec![0, 0, 0, kind];
    bytes.extend_from_slice(&(mime.len() as u32).to_be_bytes());
    bytes.extend_from_slice(mime);
    bytes.extend_from_slice(&(description.len() as u32).to_be_bytes());
    bytes.extend_from_slice(description);
    bytes.extend_from_slice(&640u32.to_be_bytes());
    bytes.extend_from_slice(&480u32.to_be_bytes());
    bytes.extend_from_slice(&24u32.to_be_bytes());
    bytes.extend_from_slice(&0u32.to_be_bytes());
    bytes.extend_from_slice(&(image.len() as u32).to_be_bytes());
    bytes.extend_from_slice(image);
    bytes
}

#[test]
fn picture_with_unknown_type_is_a_format_error() {
    let result = Picture::from_bytes(payload(99, b"image/png", b"cover", &[1, 2, 3, 4]));
    assert!(matches!(result, Err(Error::InvalidFormat)));
    let result = Picture::from_bytes(payload(21, b"image/png", b"cover", &[1, 2, 3, 4]));
    assert!(matches!(result, Err(Error::InvalidFormat)));
}

#[test]
fn picture_of_type_media_decodes() {
    let picture = Picture::from_bytes(payload(6, b"image/png", b"cover", &[1, 2, 3, 4])).unwrap();
    assert_eq!(picture.picture_type(), PictureType::Media);
    assert_eq!(picture.mime_type(), "image/png");
    assert_eq!(picture.description(), "cover");
    assert_eq!(picture.width(), 640);
    assert_eq!(picture.height(), 480);
    assert_eq!(picture.color_depth(), 24);
    assert_eq!(picture.indexed_color_pictures(), 0);
    assert_eq!(picture.picture_data(), &[1, 2, 3, 4]);
}

#[test]
fn picture_round_trips() {
    let bytes = payload(6, b"image/png", "caf\u{e9}".as_bytes(), &[9, 8, 7]);
    let picture = Picture::from_bytes(bytes.clone()).unwrap();
    let again = picture.clone().into_bytes();
    assert_eq!(again, bytes);
    let back = Picture::from_bytes(again).unwrap();
    assert_eq!(back.width(), picture.width());
    assert_eq!(back.height(), picture.height());
    assert_eq!(back.description(), "caf\u{e9}");
    assert_eq!(back.picture_type(), PictureType::Media);
}

#[test]
fn picture_only_the_fourth_byte_is_the_type() {
    let mut bytes = payload(3, b"", b"", &[]);
    bytes[0] = 0xAA;
    bytes[1] = 0xBB;
    bytes[2] = 0xCC;
    let picture = Picture::from_bytes(bytes).unwrap();
    assert_eq!(picture.picture_type(), PictureType::CoverFont);
    assert_eq!(picture.mime_type(), "");
    assert_eq!(picture.picture_data().len(), 0);
    assert_eq!(&picture.into_bytes()[0..4], &[0, 0, 0, 3]);
}

#[test]
fn picture_cut_short_is_a_format_error() {
    let whole = payload(6, b"image/png", b"cover", &[1, 2, 3, 4]);
    for len in 0..whole.len() {
        let result = Picture::from_bytes(whole[..len].to_vec());
        assert!(matches!(result, Err(Error::InvalidFormat)), "length {}", len);
    }
}

#[test]
fn picture_ignores_what_follows_the_image() {
    let mut bytes = payload(0, b"a/b", b"", &[5]);
    bytes.extend_from_slice(&[0xDE, 0xAD]);
    let picture = Picture::from_bytes(bytes).unwrap();
    assert_eq!(picture.picture_data(), &[5]);
}

#[test]
fn picture_strings_are_decoded_lossily() {
    let picture = Picture::from_bytes(payload(6, b"image/\xFFpng", b"\xC3", &[])).unwrap();
    assert_eq!(picture.mime_type(), "image/\u{FFFD}png");
    assert_eq!(picture.description(), "\u{FFFD}");
}

#[test]
fn picture_length_exceeding_the_payload_is_a_format_error() {
    let mut bytes = vec![0, 0, 0, 6];
    bytes.extend_from_slice(&0xFFFF_FFFFu32.to_be_bytes());
    bytes.extend_from_slice(b"image/png");
    assert!(matches!(Picture::from_bytes(bytes), Err(Error::InvalidFormat)));
}

#[test]
fn picture_type_from_u8_covers_zero_to_twenty() {
    let kinds = [
        PictureType::Other,
        PictureType::FileIcon,
        PictureType::OtherFileIcon,
        PictureType::CoverFont,
        PictureType::CoverBack,
        PictureType::LeafletPage,
        PictureType::Media,
        PictureType::Lead,
        PictureType::Artist,
        PictureType::Conductor,
        PictureType::Band,
        PictureType::Composer,
        PictureType::Lyricist,
        PictureType::RecordingLocation,
        PictureType::DuringRecording,
        PictureType::DuringPerformance,
        PictureType::VideoScreenCapture,
        PictureType::BrightColouredFish,
        PictureType::Illustration,
        PictureType::BandLogoType,
        PictureType::PublisherLogoType,
    ];
    for (code, kind) in kinds.iter().enumerate() {
        assert_eq!(PictureType::from_u8(code as u8), Some(*kind));
        assert_eq!(kind.to_u8(), code as u8);
    }
    for code in 21..=255u8 {
        assert_eq!(PictureType::from_u8(code), None);
    }
}

#[test]
fn picture_block_is_framed_with_type_six() {
    let bytes = payload(6, b"image/png", b"cover", &[1, 2, 3, 4]);
    let picture = Picture::from_bytes(bytes.clone()).unwrap();
    let framed = Block::new(false, 0, 0, picture).to_bytes();
    assert_eq!(Picture::BLOCK_TYPE, 6);
    assert_eq!(framed[0], 0x06);
    assert_eq!(&framed[1..4], &[0, 0, bytes.len() as u8]);
    assert_eq!(&framed[4..], &bytes[..]);
}
